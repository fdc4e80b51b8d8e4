use highway::protocol::{EraId, NodeId, TimerId};

#[test]
fn foo() {
    assert!(true)
}

#[test]
fn identifiers_compare_by_value() {
    assert_eq!(TimerId(3), TimerId(3));
    assert_ne!(NodeId(1), NodeId(2));
    assert_eq!(EraId(0), EraId(0));
}
