use rosin::style::Stylesheet;
use rosin::tree::ArrayNode;

#[test]
fn basic_class() {
    let stylesheet = Stylesheet::new_static(".root { height: 100px; }");

    let mut tree = vec![
        ArrayNode::new("root", None), // 0
    ];

    stylesheet.style(&mut tree);

    assert_eq!(tree[0].style.height(), Some(100));
}

#[test]
fn child() {
    let stylesheet = Stylesheet::new_static(".root .child { height: 100px; }");

    let mut tree = vec![
        ArrayNode::new("root", None),     // 0
        ArrayNode::new("child", Some(0)), // 1
    ];

    stylesheet.style(&mut tree);

    assert_eq!(tree[0].style.height(), None);
    assert_eq!(tree[1].style.height(), Some(100));
}

#[test]
fn direct_child() {
    let stylesheet =
        Stylesheet::new_static(".parent > .child { height: 100px; } .child { height: 200px; }");

    let mut tree = vec![
        ArrayNode::new("root", None),      // 0
        ArrayNode::new("parent", Some(0)), // 1
        ArrayNode::new("parent", Some(0)), // 2
        ArrayNode::new("child", Some(2)),  // 3
        ArrayNode::new("wrap", Some(1)),   // 4
        ArrayNode::new("child", Some(4)),  // 5
    ];

    stylesheet.style(&mut tree);

    assert_eq!(tree[0].style.height(), None);
    assert_eq!(tree[1].style.height(), None);
    assert_eq!(tree[2].style.height(), None);
    assert_eq!(tree[3].style.height(), Some(100));
    assert_eq!(tree[4].style.height(), None);
    assert_eq!(tree[5].style.height(), Some(200));
}

#[test]
fn specificity() {
    let stylesheet =
        Stylesheet::new_static(".root .child { height: 100px; } .child { height: 90px; }");

    let mut tree = vec![
        ArrayNode::new("root", None),     // 0
        ArrayNode::new("wrap", Some(0)),  // 1
        ArrayNode::new("child", Some(1)), // 2
    ];

    stylesheet.style(&mut tree);

    assert_eq!(tree[0].style.height(), None);
    assert_eq!(tree[1].style.height(), None);
    assert_eq!(tree[2].style.height(), Some(100));
}

#[test]
fn wildcard() {
    let stylesheet = Stylesheet::new_static("* { height: 100px; }");

    let mut tree = vec![
        ArrayNode::new("root", None),      // 0
        ArrayNode::new("parent", Some(0)), // 1
        ArrayNode::new("parent", Some(0)), // 2
        ArrayNode::new("child", Some(2)),  // 3
        ArrayNode::new("wrap", Some(1)),   // 4
        ArrayNode::new("child", Some(4)),  // 5
    ];

    stylesheet.style(&mut tree);

    assert_eq!(tree[0].style.height(), Some(100));
    assert_eq!(tree[1].style.height(), Some(100));
    assert_eq!(tree[2].style.height(), Some(100));
    assert_eq!(tree[3].style.height(), Some(100));
    assert_eq!(tree[4].style.height(), Some(100));
    assert_eq!(tree[5].style.height(), Some(100));
}

#[test]
fn wildcard_specificity() {
    let stylesheet = Stylesheet::new_static("* { height: 100px; } child { height: 1px; }");

    let mut tree = vec![
        ArrayNode::new("root", None),      // 0
        ArrayNode::new("parent", Some(0)), // 1
        ArrayNode::new("parent", Some(0)), // 2
        ArrayNode::new("child", Some(2)),  // 3
        ArrayNode::new("wrap", Some(1)),   // 4
        ArrayNode::new("child", Some(4)),  // 5
    ];

    stylesheet.style(&mut tree);

    assert_eq!(tree[0].style.height(), Some(100));
    assert_eq!(tree[1].style.height(), Some(100));
    assert_eq!(tree[2].style.height(), Some(100));
    assert_eq!(tree[3].style.height(), Some(1));
    assert_eq!(tree[4].style.height(), Some(100));
    assert_eq!(tree[5].style.height(), Some(1));
}

#[test]
fn wildcard_descendant() {
    let stylesheet = Stylesheet::new_static("* one { height: 100px; }");

    let mut tree = vec![
        ArrayNode::new("root", None),      // 0
        ArrayNode::new("parent", Some(0)), // 1
        ArrayNode::new("two", Some(1)),    // 2
        ArrayNode::new("one", Some(1)),    // 3
    ];

    stylesheet.style(&mut tree);

    assert_eq!(tree[0].style.height(), None);
    assert_eq!(tree[1].style.height(), None);
    assert_eq!(tree[2].style.height(), None);
    assert_eq!(tree[3].style.height(), Some(100));
}

#[test]
fn non_matching() {
    let stylesheet =
        Stylesheet::new_static("selector { height: 100px; } random name { height: 100px; }");

    let mut tree = vec![
        ArrayNode::new("root", None),      // 0
        ArrayNode::new("parent", Some(0)), // 1
        ArrayNode::new("two", Some(1)),    // 2
        ArrayNode::new("one", Some(1)),    // 3
    ];

    stylesheet.style(&mut tree);

    assert_eq!(tree[0].style.height(), None);
    assert_eq!(tree[1].style.height(), None);
    assert_eq!(tree[2].style.height(), None);
    assert_eq!(tree[3].style.height(), None);
}

#[test]
fn semi_matching_chain() {
    let stylesheet = Stylesheet::new_static("one two three { height: 100px; }");

    let mut tree = vec![
        ArrayNode::new("two", None),      // 0
        ArrayNode::new("three", Some(0)), // 1
    ];

    stylesheet.style(&mut tree);

    assert_eq!(tree[0].style.height(), None);
    assert_eq!(tree[1].style.height(), None);
}

#[test]
fn descendant_at_any_depth() {
    let stylesheet = Stylesheet::new_static(".root .child { height: 100px; }");

    let mut tree = vec![
        ArrayNode::new("root", None),     // 0
        ArrayNode::new("a", Some(0)),     // 1
        ArrayNode::new("b", Some(1)),     // 2
        ArrayNode::new("child", Some(2)), // 3
    ];

    stylesheet.style(&mut tree);

    assert_eq!(tree[0].style.height(), None);
    assert_eq!(tree[3].style.height(), Some(100));
}

#[test]
fn later_rule_wins_at_equal_specificity() {
    let stylesheet = Stylesheet::new_static(".a { height: 1px; } .a { height: 2px; }");

    let mut tree = vec![ArrayNode::new("a", None)];

    stylesheet.style(&mut tree);

    assert_eq!(tree[0].style.height(), Some(2));
}

#[test]
fn unrelated_property_stays_unset() {
    let stylesheet = Stylesheet::new_static(".a { height: 5px; }");

    let mut tree = vec![ArrayNode::new("a", None)];

    stylesheet.style(&mut tree);

    assert_eq!(tree[0].style.height(), Some(5));
    assert_eq!(tree[0].style.get(&b"width".to_vec()), None);
}

#[test]
fn class_added_after_construction_matches() {
    let stylesheet = Stylesheet::new_static(".extra { height: 7px; }");

    let mut node = ArrayNode::new("base", None);
    node.add_class("extra");
    let mut tree = vec![node];

    stylesheet.style(&mut tree);

    assert_eq!(tree[0].style.height(), Some(7));
}
