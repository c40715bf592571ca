use kademlia::pending::{PendingRequests, TOKEN_SPACE};

#[test]
fn registered_token_settles_once() {
    let mut p = PendingRequests::new();
    let t = p.register();
    assert!(t < TOKEN_SPACE);
    assert!(p.settle(t));
    assert!(!p.settle(t));
}

#[test]
fn unknown_token_does_not_settle() {
    let mut p = PendingRequests::new();
    assert!(!p.settle(3));
    let t = p.register();
    let other = (t + 1) % TOKEN_SPACE;
    assert!(!p.settle(other));
    assert!(p.settle(t));
}
