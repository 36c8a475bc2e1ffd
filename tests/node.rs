use hexmap::node::{Node, NodeError, NodeField};
use hexmap::theme::Theme;

#[test]
fn node_from_str_reads_fields() {
    assert_eq!(Node::from_str("3 -4 2 Green"), Ok((3, -4, Node::new(2, Theme::Green))));
    assert_eq!(Node::from_str(" -1\t+7 255 Brown x"), Ok((-1, 7, Node::new(255, Theme::Brown))));
}

#[test]
fn node_from_str_errors() {
    assert_eq!(Node::from_str(""), Err(NodeError::Missing(NodeField::X)));
    assert_eq!(Node::from_str("x"), Err(NodeError::Invalid(NodeField::X)));
    assert_eq!(Node::from_str("1"), Err(NodeError::Missing(NodeField::Y)));
    assert_eq!(Node::from_str("1 2"), Err(NodeError::Missing(NodeField::Height)));
    assert_eq!(Node::from_str("1 2 256 Red"), Err(NodeError::Invalid(NodeField::Height)));
    assert_eq!(Node::from_str("1 2 3"), Err(NodeError::Missing(NodeField::Color)));
    assert_eq!(Node::from_str("1 2 3 Text"), Err(NodeError::Invalid(NodeField::Color)));
}
