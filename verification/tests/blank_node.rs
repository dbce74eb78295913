use rudf::model::BlankNode;

fn padded(digits: &str) -> String {
    let mut text = String::from(digits);
    while text.len() < 32 {
        text.push('\0');
    }
    text
}

#[test]
fn blank_node_label_is_lowercase_hex() {
    let node = BlankNode::new_from_unique_id(0x1f);
    assert_eq!(node.id(), 0x1f);
    assert_eq!(node.as_str(), padded("1f").as_str());
    assert_eq!(node.to_string(), format!("_:{}", padded("1f")));
}

#[test]
fn blank_node_zero_is_one_digit() {
    let node = BlankNode::new_from_unique_id(0);
    assert_eq!(node.as_str(), padded("0").as_str());
}

#[test]
fn blank_node_largest_identifier_fills_the_label() {
    let node = BlankNode::new_from_unique_id(u128::MAX);
    assert_eq!(node.as_str(), "ffffffffffffffffffffffffffffffff");
    assert_eq!(node.to_string(), "_:ffffffffffffffffffffffffffffffff");
}

#[test]
fn blank_node_label_has_all_sixteen_digits() {
    let node = BlankNode::new_from_unique_id(0x0123456789abcdef);
    assert_eq!(node.as_str(), padded("123456789abcdef").as_str());
}

#[test]
fn blank_nodes_are_equal_when_identifiers_are() {
    let a = BlankNode::new_from_unique_id(42);
    let b = BlankNode::new_from_unique_id(42);
    let c = BlankNode::new_from_unique_id(43);
    assert_eq!(a, b);
    assert_ne!(a, c);
    assert_eq!(a.clone(), a);
}

#[test]
fn default_blank_node_has_the_label_of_its_identifier() {
    let node = BlankNode::default();
    let again = BlankNode::new_from_unique_id(node.id());
    assert_eq!(node, again);
    assert_eq!(node.as_str().len(), 32);
    assert!(node.to_string().starts_with("_:"));
}
