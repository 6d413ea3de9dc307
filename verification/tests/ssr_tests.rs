use rustweb::error::HydrationError;
use rustweb::ssr::{render_to_string, verify_hydration};
use rustweb::vnode::{Attr, VNode};

#[test]
fn ssr_escapes_and_marks() {
    let n = VNode::element("div", vec![Attr::new("title", "<x>&")], vec![VNode::text("<hi>&")]);
    let html = render_to_string(&n);
    assert!(html.contains("data-rwh=\"0\""), "{html}");
    assert!(html.contains("&lt;hi&gt;&amp;"), "{html}");
    assert!(html.contains("title=\"&lt;x&gt;&amp;\""), "{html}");
}

#[test]
fn deterministic_ids() {
    let a = VNode::element("div", vec![], vec![VNode::element("span", vec![], vec![VNode::text("x")])]);
    assert_eq!(render_to_string(&a), render_to_string(&a));
}

#[test]
fn hydration_ok_when_same() {
    let n = VNode::element("main", vec![Attr::new("aria-label", "App")], vec![VNode::text("hi")]);
    let html = render_to_string(&n);
    assert!(verify_hydration(&html, &n).is_ok());
}

#[test]
fn hydration_detects_text_mismatch() {
    let server = VNode::element("div", vec![], vec![VNode::text("a")]);
    let client = VNode::element("div", vec![], vec![VNode::text("b")]);
    let html = render_to_string(&server);
    let err = verify_hydration(&html, &client).unwrap_err();
    assert!(
        matches!(err, HydrationError::TextMismatch { .. } | HydrationError::Structure { .. }),
        "{}",
        err.message()
    );
}

#[test]
fn empty_keeps_placeholder() {
    let html = render_to_string(&VNode::Empty);
    assert_eq!(html, "<!---->");
}

#[test]
fn hydration_reports_a_difference_inside_a_character() {
    let server = render_to_string(&VNode::element("div", vec![], vec![VNode::text("é")]));
    let client = VNode::element("div", vec![], vec![VNode::text("è")]);
    match verify_hydration(&server, &client) {
        Err(HydrationError::TextMismatch { hid, server, client }) => {
            assert_eq!(hid, "0");
            assert!(server.contains('é'));
            assert!(client.contains('è'));
        }
        Err(HydrationError::Structure { hid, .. }) => assert_eq!(hid, "0"),
        other => panic!("expected a mismatch, got {:?}", other),
    }
}
