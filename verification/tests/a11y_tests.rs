use rustweb::a11y::{check, A11yReport, A11yViolation, Severity};
use rustweb::vnode::{Attr, Element, VNode};

fn el(tag: &str, attrs: Vec<Attr>, children: Vec<VNode>) -> VNode {
    let mut e = Element::new(tag, children);
    e.attrs = attrs;
    VNode::Element(e)
}

fn app() -> VNode {
    el(
        "main",
        vec![Attr::new("aria-label", "Todo app")],
        vec![
            el("h1", vec![], vec![VNode::text("Todos")]),
            el("ul", vec![], vec![el("li", vec![], vec![VNode::text("a")])]),
            el(
                "button",
                vec![Attr::new("aria-pressed", "false")],
                vec![VNode::text("Add")],
            ),
        ],
    )
}

fn rules(report: &A11yReport) -> Vec<&'static str> {
    report.violations.iter().map(|v| v.rule).collect()
}

#[test]
fn clean_app_has_no_violations() {
    let r = check(&app());
    assert!(r.is_clean(), "unexpected violations: {}", r.to_text());
}

#[test]
fn main_landmark_satisfies() {
    let r = check(&app());
    assert!(!rules(&r).contains(&"landmark-main"));
    let nested = el(
        "section",
        vec![],
        vec![el(
            "main",
            vec![],
            vec![el("h1", vec![], vec![VNode::text("x")])],
        )],
    );
    assert!(!rules(&check(&nested)).contains(&"landmark-main"));
}

#[test]
fn missing_main_is_minor_not_blocking() {
    let t = el(
        "div",
        vec![],
        vec![el("h1", vec![], vec![VNode::text("x")])],
    );
    let r = check(&t);
    assert!(!r.has_blocking());
    assert_eq!(rules(&r), vec!["landmark-main"]);
}

#[test]
fn button_without_name_is_serious() {
    let t = el("main", vec![], vec![el("button", vec![], vec![])]);
    let r = check(&t);
    assert!(r.has_blocking());
    assert!(rules(&r).contains(&"interactive-name"));
}

#[test]
fn link_without_href_is_not_checked() {
    let t = el("main", vec![], vec![el("a", vec![], vec![])]);
    assert!(!rules(&check(&t)).contains(&"interactive-name"));
}

#[test]
fn image_requires_alt() {
    let t = el("main", vec![], vec![el("img", vec![], vec![])]);
    let r = check(&t);
    assert!(rules(&r).contains(&"image-alt"));
    let ok = el(
        "main",
        vec![],
        vec![el("img", vec![Attr::new("alt", "dog")], vec![])],
    );
    assert!(!rules(&check(&ok)).contains(&"image-alt"));
    let deco = el(
        "main",
        vec![],
        vec![el("img", vec![Attr::new("alt", "")], vec![])],
    );
    assert!(!rules(&check(&deco)).contains(&"image-alt"));
}

#[test]
fn input_requires_label() {
    let t = el(
        "main",
        vec![],
        vec![el("input", vec![Attr::new("type", "text")], vec![])],
    );
    assert!(rules(&check(&t)).contains(&"form-label"));
    let ok = el(
        "main",
        vec![],
        vec![el("input", vec![Attr::new("aria-label", "Email")], vec![])],
    );
    assert!(!rules(&check(&ok)).contains(&"form-label"));
    let hidden = el(
        "main",
        vec![],
        vec![el("input", vec![Attr::new("type", "hidden")], vec![])],
    );
    assert!(!rules(&check(&hidden)).contains(&"form-label"));
}

#[test]
fn heading_order_flags_skips() {
    let t = el(
        "main",
        vec![],
        vec![
            el("h1", vec![], vec![VNode::text("a")]),
            el("h4", vec![], vec![VNode::text("b")]),
        ],
    );
    assert!(rules(&check(&t)).contains(&"heading-order"));
    let ok = el(
        "main",
        vec![],
        vec![
            el("h1", vec![], vec![VNode::text("a")]),
            el("h2", vec![], vec![VNode::text("b")]),
        ],
    );
    assert!(!rules(&check(&ok)).contains(&"heading-order"));
}

#[test]
fn list_structure_flags_non_li_children() {
    let t = el(
        "main",
        vec![],
        vec![el(
            "ul",
            vec![],
            vec![el("div", vec![], vec![VNode::text("x")])],
        )],
    );
    assert!(rules(&check(&t)).contains(&"list-structure"));
    let ok = el(
        "main",
        vec![],
        vec![el(
            "ul",
            vec![],
            vec![el("li", vec![], vec![VNode::text("x")])],
        )],
    );
    assert!(!rules(&check(&ok)).contains(&"list-structure"));
}

#[test]
fn empty_report_text() {
    let mut r = A11yReport::default();
    assert!(r.is_clean());
    assert_eq!(r.to_text(), "0 a11y violations");
    r.violations.push(A11yViolation {
        path: "main > button".into(),
        rule: "interactive-name",
        severity: Severity::Serious,
        message: "x".into(),
        fix_hint: "y".into(),
    });
    assert!(!r.is_clean());
    assert!(r.to_text().contains("serious"));
}

fn labelled_input_view() -> VNode {
    rustweb::ui::render_input(rustweb::ui::InputProps {
        id: "new-todo".into(),
        value: "".into(),
        placeholder: Some("What needs to be done?".into()),
        label: Some("New todo".into()),
        error: None,
        disabled: false,
        children: vec![],
    })
}

#[test]
fn input_named_by_label_for_is_clean() {
    let root = el("main", vec![Attr::new("aria-label", "Todo app")], vec![labelled_input_view()]);
    assert!(check(&root).violations.is_empty());
}

#[test]
fn label_for_another_id_does_not_name_the_input() {
    let root = el(
        "main",
        vec![Attr::new("aria-label", "x")],
        vec![
            el("label", vec![Attr::new("for", "other")], vec![VNode::text("Other")]),
            el("input", vec![Attr::new("id", "mine")], vec![]),
        ],
    );
    let report = check(&root);
    assert_eq!(report.violations.len(), 1);
    assert_eq!(report.violations[0].rule, "form-label");
}

#[test]
fn label_after_the_input_still_names_it() {
    let root = el(
        "main",
        vec![Attr::new("aria-label", "x")],
        vec![
            el("input", vec![Attr::new("id", "mine")], vec![]),
            el("label", vec![Attr::new("for", "mine")], vec![VNode::text("Mine")]),
        ],
    );
    assert!(check(&root).violations.is_empty());
}
