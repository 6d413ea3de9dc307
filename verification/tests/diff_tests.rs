use rustweb::diff::diff;
use rustweb::patch::Patch;
use rustweb::vnode::{Attr, Element, VNode};

fn el(tag: &str, key: Option<&str>, children: Vec<VNode>) -> VNode {
    let mut e = Element::new(tag, children);
    e.key = key.map(|s| s.to_owned());
    VNode::Element(e)
}

#[test]
fn text_update() {
    let p = diff(&VNode::text("a"), &VNode::text("b"));
    assert_eq!(p, vec![Patch::SetText { path: vec![], text: "b".into() }]);
}

#[test]
fn tag_change_replaces() {
    let p = diff(&el("div", None, vec![]), &el("span", None, vec![]));
    assert!(matches!(p[0], Patch::Replace { .. }));
}

#[test]
fn attr_diff() {
    let a = VNode::element("div", vec![Attr::new("class", "a")], vec![]);
    let b = VNode::element("div", vec![Attr::new("class", "b"), Attr::new("id", "x")], vec![]);
    let p = diff(&a, &b);
    assert!(p.iter().any(|x| matches!(x, Patch::SetAttr { name, .. } if name == "class")));
    assert!(p.iter().any(|x| matches!(x, Patch::SetAttr { name, .. } if name == "id")));
}

#[test]
fn keyed_reorder_uses_move_not_replace() {
    let old = VNode::element(
        "ul",
        vec![],
        vec![
            el("li", Some("a"), vec![VNode::text("a")]),
            el("li", Some("b"), vec![VNode::text("b")]),
            el("li", Some("c"), vec![VNode::text("c")]),
        ],
    );
    let new = VNode::element(
        "ul",
        vec![],
        vec![
            el("li", Some("c"), vec![VNode::text("c")]),
            el("li", Some("a"), vec![VNode::text("a")]),
            el("li", Some("b"), vec![VNode::text("b")]),
        ],
    );
    let p = diff(&old, &new);
    assert!(p.iter().any(|x| x.is_move()), "expected a Move, got {p:?}");
    assert!(!p.iter().any(|x| matches!(x, Patch::Replace { .. })), "reorder must not replace: {p:?}");
}

#[test]
fn keyed_insert_and_remove() {
    let old = VNode::element("ul", vec![], vec![el("li", Some("a"), vec![])]);
    let new = VNode::element("ul", vec![], vec![el("li", Some("b"), vec![])]);
    let p = diff(&old, &new);
    assert!(p.iter().any(|x| matches!(x, Patch::Remove { .. })));
    assert!(p.iter().any(|x| matches!(x, Patch::Create { .. })));
}

#[test]
fn unkeyed_positional() {
    let old = VNode::element("div", vec![], vec![VNode::text("a"), VNode::text("b")]);
    let new = VNode::element("div", vec![], vec![VNode::text("a"), VNode::text("c"), VNode::text("d")]);
    let p = diff(&old, &new);
    assert!(p.iter().any(|x| matches!(x, Patch::SetText { .. })));
    assert!(p.iter().any(|x| matches!(x, Patch::Create { .. })));
}

#[test]
fn remove_path_uses_old_navigation() {
    let inner_old = el("span", Some("x"), vec![el("i", Some("a"), vec![]), el("i", Some("b"), vec![])]);
    let inner_new = el("span", Some("x"), vec![el("i", Some("a"), vec![])]);
    let old = VNode::element("main", vec![], vec![el("div", Some("z"), vec![]), inner_old]);
    let new = VNode::element("main", vec![], vec![inner_new]);
    let p = diff(&old, &new);
    let mut removes: Vec<Vec<usize>> = p
        .iter()
        .filter_map(|x| match x {
            Patch::Remove { path } => Some(path.clone()),
            _ => None,
        })
        .collect();
    removes.sort();
    assert_eq!(removes, vec![vec![0], vec![1, 1]], "remove paths must use old navigation, got: {p:?}");
}
