use rustweb::vnode::{escape_html, Attr, HtmlChild, VNode};

#[test]
fn sexpr_snapshot_basics() {
    let n = VNode::element(
        "div",
        vec![Attr::new("class", "main"), Attr::new("aria-label", "Close")],
        vec![VNode::text("hi")],
    );
    assert_eq!(n.to_sexpr(), r#"(div class="main" aria-label="Close" "hi")"#);
}

#[test]
fn escape_roundtrip() {
    assert_eq!(escape_html("<a>&\"'"), "&lt;a&gt;&amp;&quot;&#39;");
}

// The markup `<div>{ if logged_in { <span>"hi"</span> } else { <a href="/login">"login"</a> } }
// { items.iter().map(|t| <li>{ t }</li>).collect::<Vec<_>>() }</div>`, built by the
// calls its expansion makes: each `{ … }` child goes through `HtmlChild::into_vnodes`.
#[test]
fn conditional_and_list_children() {
    let logged_in = true;
    let items = vec!["a", "b"];
    let mut children: Vec<VNode> = Vec::new();
    let cond = if logged_in {
        VNode::element("span", vec![], "hi".into_vnodes())
    } else {
        VNode::element("a", vec![Attr::new("href", "/login")], "login".into_vnodes())
    };
    children.extend(cond.into_vnodes());
    let list: Vec<VNode> = items.iter().map(|t| VNode::element("li", vec![], (*t).into_vnodes())).collect();
    children.extend(list.into_vnodes());
    let node = VNode::element("div", vec![], children);
    if let VNode::Element(el) = &node {
        assert_eq!(el.children.len(), 3, "{}", node.to_sexpr());
    } else {
        panic!("expected div");
    }
}
