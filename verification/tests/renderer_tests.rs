use rustweb::diff::diff;
use rustweb::patch::Patch;
use rustweb::renderer::apply_patches_to_tree;
use rustweb::vnode::{Element, VNode};

fn li(key: &str, t: &str) -> VNode {
    let mut e = Element::new("li", vec![VNode::text(t)]);
    e.key = Some(key.to_owned());
    VNode::Element(e)
}

#[test]
fn apply_roundtrip_reorder() {
    let old = VNode::element("ul", vec![], vec![li("a", "a"), li("b", "b"), li("c", "c")]);
    let new = VNode::element("ul", vec![], vec![li("c", "c"), li("a", "a"), li("b", "b")]);
    let patches = diff(&old, &new);
    let out = apply_patches_to_tree(old, &patches).unwrap();
    assert_eq!(out, new);
}

#[test]
fn applier_never_panics_on_bad_path() {
    let root = VNode::element("div", vec![], vec![]);
    let bad = vec![Patch::Remove { path: vec![9, 9, 9] }];
    assert!(apply_patches_to_tree(root, &bad).is_err());
}
