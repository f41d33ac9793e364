use markstore::error::MksError;

#[test]
fn errors_have_messages() {
    let s = |t: &str| t.to_string();
    assert_eq!(MksError::Io(s("x")).message(), "I/O error: x");
    assert_eq!(MksError::Db(s("x")).message(), "Database error: x");
    assert_eq!(MksError::Serialize(s("x")).message(), "Serialization error: x");
    assert_eq!(MksError::NotFound(s("x")).message(), "Document not found: x");
    assert_eq!(MksError::NodeNotFound(s("x")).message(), "Graph node not found: 'x'");
    assert_eq!(MksError::NoPath(s("a"), s("b")).message(), "No path between 'a' and 'b'");
    assert_eq!(
        MksError::NotInitialized(s("p")).message(),
        "Store not initialized at p — run `mks init` first"
    );
    assert_eq!(MksError::Glob(s("x")).message(), "Glob error: x");
    assert_eq!(MksError::Other(s("x")).message(), "x");
}
