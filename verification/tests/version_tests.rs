use agent_core::VERSION;

#[test]
fn test_version() {
    assert_eq!(VERSION, "1.0.0");
}
