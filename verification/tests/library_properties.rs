use rustweb::diff::diff;
use rustweb::error::{ComponentError, PropsError, RenderError};
use rustweb::events::EventDelegator;
use rustweb::perf::UnnecessaryRenderDetector;
use rustweb::renderer::apply_patches_to_tree;
use rustweb::router::RouterError;
use rustweb::scheduler::{Scheduler, MAX_MSGS_PER_TICK};
use rustweb::ssr::{render_to_string, verify_hydration};
use rustweb::vnode::{Attr, Element, VNode};
use std::time::Duration;

// Same tags, same attribute names, same number of unkeyed children: the
// class of trees on which applying the diff is proved to give the new tree.
#[test]
fn compatible_edit_round_trips() {
    let old = VNode::element(
        "div",
        vec![Attr::new("class", "a"), Attr::new("id", "x")],
        vec![VNode::text("x"), VNode::element("span", vec![], vec![VNode::text("y")]), VNode::Empty],
    );
    let new = VNode::element(
        "div",
        vec![Attr::new("class", "b"), Attr::new("id", "z"), Attr::new("title", "t")],
        vec![
            VNode::text("x2"),
            VNode::element("em", vec![], vec![VNode::text("y2")]),
            VNode::text("t"),
            VNode::fragment(vec![VNode::text("more")]),
        ],
    );
    let p = diff(&old, &new);
    assert_eq!(apply_patches_to_tree(old, &p).unwrap(), new);
}

// Attributes may change value, be dropped anywhere, and be added at the end.
#[test]
fn attribute_edits_round_trip() {
    let old = VNode::element(
        "a",
        vec![Attr::new("class", "a"), Attr::new("id", "x"), Attr::new("title", "t")],
        vec![VNode::text("go")],
    );
    let new = VNode::element(
        "a",
        vec![Attr::new("class", "b"), Attr::new("title", "t"), Attr::new("href", "/x")],
        vec![VNode::text("go")],
    );
    let p = diff(&old, &new);
    assert_eq!(apply_patches_to_tree(old, &p).unwrap(), new);
}

// Listeners may change handler, be dropped anywhere, and be added at the end.
#[test]
fn listener_edits_round_trip() {
    let with = |ls: &[(&str, &str)]| {
        let mut e = Element::new("button", vec![VNode::text("ok")]);
        e.listeners = ls.iter().map(|(a, b)| (a.to_string(), b.to_string())).collect();
        VNode::Element(e)
    };
    let old = with(&[("click", "h1"), ("focus", "h2"), ("blur", "h3")]);
    let new = with(&[("click", "h9"), ("blur", "h3"), ("keydown", "h4")]);
    let p = diff(&old, &new);
    assert_eq!(apply_patches_to_tree(old, &p).unwrap(), new);
}

fn keyed(tag: &str, key: &str, kids: Vec<VNode>) -> VNode {
    let mut e = Element::new(tag, kids);
    e.key = Some(key.to_string());
    VNode::Element(e)
}

#[test]
fn shrinking_and_nested_edits_round_trip() {
    let old = VNode::element(
        "ul",
        vec![],
        vec![
            VNode::element("li", vec![], vec![VNode::text("a"), VNode::text("b"), VNode::text("c")]),
            VNode::text("x"),
            VNode::text("y"),
            VNode::text("z"),
        ],
    );
    let new = VNode::element(
        "ul",
        vec![],
        vec![VNode::element("li", vec![], vec![VNode::text("a2")]), VNode::text("x2")],
    );
    let p = diff(&old, &new);
    assert_eq!(apply_patches_to_tree(old, &p).unwrap(), new);
}

#[test]
fn keyed_items_edited_in_place_round_trip() {
    let old = VNode::element(
        "ul",
        vec![],
        vec![keyed("li", "1", vec![VNode::text("one")]), keyed("li", "2", vec![VNode::text("two")])],
    );
    let new = VNode::element(
        "ul",
        vec![],
        vec![keyed("li", "1", vec![VNode::text("uno")]), keyed("li", "2", vec![VNode::text("dos")])],
    );
    let p = diff(&old, &new);
    assert_eq!(apply_patches_to_tree(old, &p).unwrap(), new);
}

// Keyed children may be inserted and removed anywhere, and the kept ones
// edited, as long as the kept ones stay in the same order.
#[test]
fn keyed_inserts_and_removals_round_trip() {
    let old = VNode::element(
        "ul",
        vec![],
        vec![
            keyed("li", "a", vec![VNode::text("x"), VNode::text("y"), VNode::text("z")]),
            keyed("li", "b", vec![VNode::text("gone")]),
            keyed("li", "c", vec![VNode::text("p")]),
        ],
    );
    let new = VNode::element(
        "ul",
        vec![],
        vec![
            keyed("li", "n", vec![VNode::text("new")]),
            keyed("li", "a", vec![VNode::text("x2")]),
            keyed("li", "d", vec![]),
            keyed("li", "c", vec![VNode::text("p2"), VNode::text("q")]),
        ],
    );
    let p = diff(&old, &new);
    assert_eq!(apply_patches_to_tree(old, &p).unwrap(), new);
}

// A repeated key: only its first new occurrence is matched, with the first
// old one; the others are created or removed.
#[test]
fn repeated_keys_round_trip() {
    let old = VNode::element(
        "ul",
        vec![],
        vec![keyed("li", "a", vec![VNode::text("x")]), keyed("li", "a", vec![VNode::text("y")])],
    );
    let new = VNode::element(
        "ul",
        vec![],
        vec![keyed("li", "a", vec![VNode::text("z")]), keyed("li", "a", vec![VNode::text("w")])],
    );
    let p = diff(&old, &new);
    assert_eq!(apply_patches_to_tree(old, &p).unwrap(), new);
}

#[test]
fn keyed_removal_before_an_edited_item_round_trips() {
    let old = VNode::fragment(vec![
        keyed("li", "a", vec![]),
        keyed("li", "b", vec![VNode::text("t1"), VNode::text("t2")]),
        keyed("li", "c", vec![]),
    ]);
    let new = VNode::fragment(vec![keyed("li", "b", vec![VNode::text("t1")])]);
    let p = diff(&old, &new);
    assert_eq!(apply_patches_to_tree(old, &p).unwrap(), new);
}

// Swapping keyed items while editing one of them: the items are moved into
// place first, and the edit then reaches the right one.
#[test]
fn swapped_keyed_items_with_an_edit_round_trip() {
    let old = VNode::element(
        "ul",
        vec![],
        vec![keyed("li", "1", vec![VNode::text("1")]), keyed("li", "2", vec![VNode::text("2")])],
    );
    let new = VNode::element(
        "ul",
        vec![],
        vec![keyed("li", "2", vec![VNode::text("2x")]), keyed("li", "1", vec![VNode::text("1")])],
    );
    let p = diff(&old, &new);
    assert_eq!(apply_patches_to_tree(old, &p).unwrap(), new);
}

// A component that renders again with the same name, props and key is
// edited through its boundary.
#[test]
fn component_rerender_round_trips() {
    let old = VNode::element(
        "main",
        vec![],
        vec![VNode::component(
            "Counter",
            None,
            "{}".to_string(),
            VNode::element("p", vec![Attr::new("class", "n")], vec![VNode::text("1")]),
        )],
    );
    let new = VNode::element(
        "main",
        vec![],
        vec![VNode::component(
            "Counter",
            None,
            "{}".to_string(),
            VNode::element("p", vec![Attr::new("class", "m")], vec![VNode::text("2"), VNode::text("!")]),
        )],
    );
    let p = diff(&old, &new);
    assert_eq!(apply_patches_to_tree(old, &p).unwrap(), new);
}

#[test]
fn component_with_new_props_or_content_is_replaced() {
    let old = VNode::component("Badge", None, "{\"n\":1}".to_string(), VNode::text("1"));
    let new = VNode::component("Badge", None, "{\"n\":2}".to_string(), VNode::text("2"));
    let p = diff(&old, &new);
    assert_eq!(apply_patches_to_tree(old, &p).unwrap(), new);
    let old = VNode::component("Badge", None, "{}".to_string(), VNode::text("1"));
    let new = VNode::element("b", vec![], vec![VNode::text("1")]);
    let p = diff(&old, &new);
    assert_eq!(apply_patches_to_tree(old, &p).unwrap(), new);
}

// Keyed reorders with insertions, removals and edits.
#[test]
fn keyed_reorders_round_trip() {
    let item = |k: &str, t: &str| keyed("li", k, vec![VNode::text(t)]);
    let cases: Vec<(Vec<(&str, &str)>, Vec<(&str, &str)>)> = vec![
        (vec![("a", "a"), ("b", "b")], vec![("b", "b"), ("c", "c"), ("a", "a")]),
        (vec![("a", "a"), ("b", "b"), ("c", "c"), ("m", "m")], vec![("b", "b"), ("m", "m"), ("c", "c"), ("a", "a")]),
        (vec![("a", "a"), ("b", "b")], vec![("c", "c"), ("b", "B"), ("a", "a")]),
        (vec![("a", "a"), ("b", "b"), ("c", "c"), ("d", "d")], vec![("b", "b"), ("c", "c"), ("d", "d"), ("a", "a")]),
        (vec![("x", "x"), ("a", "a"), ("b", "b")], vec![("b", "b2"), ("n", "n"), ("a", "a2")]),
    ];
    for (o, n) in cases {
        let old = VNode::element("ul", vec![], o.iter().map(|(k, t)| item(k, t)).collect());
        let new = VNode::element("ul", vec![], n.iter().map(|(k, t)| item(k, t)).collect());
        let p = diff(&old, &new);
        assert_eq!(apply_patches_to_tree(old, &p).unwrap(), new);
    }
}

// A matched item moves only when an item after it in the new list came
// before it in the old one: moving the last item to the front is one move.
#[test]
fn rotating_a_keyed_list_moves_one_item() {
    let item = |k: &str| keyed("li", k, vec![VNode::text(k)]);
    let old = VNode::element("ul", vec![], vec![item("a"), item("b"), item("c"), item("d")]);
    let new = VNode::element("ul", vec![], vec![item("d"), item("a"), item("b"), item("c")]);
    let p = diff(&old, &new);
    assert_eq!(p.iter().filter(|x| x.is_move()).count(), 1);
    assert_eq!(apply_patches_to_tree(old, &p).unwrap(), new);
}

#[test]
fn diff_of_a_tree_with_itself_is_empty() {
    let t = VNode::element("ul", vec![Attr::new("class", "l")], vec![VNode::text("a"), VNode::text("b")]);
    assert!(diff(&t, &t).is_empty());
}

#[test]
fn server_html_hydrates_the_same_tree() {
    let t = VNode::element(
        "main",
        vec![Attr::new("aria-label", "App")],
        vec![VNode::element("p", vec![], vec![VNode::text("<hi> & bye")]), VNode::element("br", vec![], vec![])],
    );
    let html = render_to_string(&t);
    assert!(verify_hydration(&html, &t).is_ok());
}

#[test]
fn error_messages() {
    assert_eq!(RouterError::NotFound("/x".into()).message(), "no route matched for path `/x`");
    assert_eq!(
        RouterError::Forbidden { path: "/a".into(), reason: "no".into() }.message(),
        "navigation to `/a` denied: no"
    );
    assert_eq!(RouterError::RedirectLoop("/r".into()).message(), "redirect loop resolving `/r`");
    assert_eq!(
        ComponentError::Props(PropsError::Invalid { component: "B".into(), prop: "p".into(), hint: "h".into() }).message(),
        "invalid prop `p` on `B`: h"
    );
    assert_eq!(RenderError::InvalidTree("t".into()).message(), "invalid virtual DOM: t");
    assert_eq!(
        ComponentError::Panicked { component: "C".into(), stage: "view".into(), location: "l".into(), payload: "boom".into() }
            .message(),
        "component C panicked in view at l: boom"
    );
}

#[test]
fn render_detector_counts_and_times() {
    let mut d = UnnecessaryRenderDetector::new();
    assert_eq!(d.mean_view(), Duration::ZERO);
    d.record("A", Duration::from_millis(10), Duration::from_millis(1), false);
    d.record("A", Duration::from_millis(20), Duration::from_millis(1), true);
    assert_eq!(d.total(), 2);
    assert_eq!(d.unnecessary(), 1);
    assert_eq!(d.total_view(), Duration::from_millis(30));
    assert_eq!(d.mean_view(), Duration::from_millis(15));
}

#[test]
fn scheduler_keeps_order_and_counts() {
    let mut s: Scheduler<u32> = Scheduler::new();
    s.push(1);
    s.push(2);
    assert_eq!(s.pending(), 2);
    assert_eq!(s.pop(), Some(1));
    let mut seen = Vec::new();
    let r: Result<usize, ()> = s.drain(|m| {
        seen.push(m);
        Ok(())
    });
    assert_eq!(r, Ok(1));
    assert_eq!(seen, vec![2]);
    assert!(s.is_empty());
    let st = s.stats();
    assert_eq!((st.pending, st.enqueued, st.dropped), (0, 2, 0));
}

#[test]
fn scheduler_drops_past_the_tick_bound() {
    let mut s: Scheduler<usize> = Scheduler::new();
    for i in 0..MAX_MSGS_PER_TICK + 5 {
        s.push(i);
    }
    let r: Result<usize, ()> = s.drain(|_| Ok(()));
    assert_eq!(r, Ok(MAX_MSGS_PER_TICK));
    assert_eq!(s.stats().dropped, 5);
    assert!(s.is_empty());
}

#[test]
fn delegation_rebinding_and_unbinding() {
    let mut d: EventDelegator<u32> = EventDelegator::new();
    assert_eq!(d.register("click", "a", 1), None);
    assert_eq!(d.register("click", "a", 2), Some(1));
    d.register("input", "b", 3);
    assert_eq!(d.binding_count(), 2);
    assert_eq!(d.root_listener_count(), 2);
    assert_eq!(d.get("click", "a"), Some(&2));
    assert!(d.unregister("click", "a"));
    assert!(!d.unregister("click", "a"));
    assert_eq!(d.root_listener_count(), 1);
}

#[test]
fn try_record_refuses_a_view_time_past_the_maximum() {
    let mut d = UnnecessaryRenderDetector::new();
    assert!(d.try_record("A", Duration::from_millis(10), Duration::ZERO, true));
    assert!(!d.try_record("A", Duration::MAX, Duration::ZERO, false));
    assert_eq!(d.total(), 1);
    assert_eq!(d.unnecessary(), 1);
    assert_eq!(d.total_view(), Duration::from_millis(10));
}

#[test]
fn drain_stops_at_the_first_refusal() {
    let mut s: Scheduler<u32> = Scheduler::new();
    for i in 1..=4 {
        s.push(i);
    }
    let mut seen = Vec::new();
    let r: Result<usize, u32> = s.drain(|m| {
        seen.push(m);
        if m == 2 {
            Err(m)
        } else {
            Ok(())
        }
    });
    assert_eq!(r, Err(2));
    assert_eq!(seen, vec![1, 2]);
    assert_eq!(s.pop(), Some(3));
    assert_eq!(s.pop(), Some(4));
    assert_eq!(s.stats().dropped, 0);
}

#[test]
fn a_tree_diffed_against_itself_needs_no_patches() {
    let x = VNode::element(
        "ul",
        vec![Attr::new("class", "list")],
        vec![
            keyed("li", "a", vec![VNode::text("a")]),
            keyed("li", "b", vec![VNode::element("span", vec![], vec![VNode::text("b")])]),
        ],
    );
    assert!(diff(&x, &x).is_empty());
    let y = VNode::element("div", vec![], vec![VNode::text("t"), VNode::element("p", vec![], vec![])]);
    assert!(diff(&y, &y).is_empty());
}

#[test]
fn a_mixed_list_repeating_a_key_diffed_against_itself_needs_no_patches() {
    let x = VNode::element(
        "ul",
        vec![],
        vec![
            keyed("li", "a", vec![VNode::text("one")]),
            VNode::text("plain"),
            keyed("li", "a", vec![VNode::text("two")]),
        ],
    );
    assert!(diff(&x, &x).is_empty());
}

#[test]
fn reordered_attributes_round_trip() {
    let old = VNode::element("div", vec![Attr::new("class", "a"), Attr::new("id", "r")], vec![]);
    let new = VNode::element("div", vec![Attr::new("id", "r"), Attr::new("class", "b")], vec![]);
    let p = diff(&old, &new);
    assert_eq!(apply_patches_to_tree(old, &p).unwrap(), new);
}

#[test]
fn setting_an_existing_attribute_moves_it_last() {
    let root = VNode::element("div", vec![Attr::new("class", "a"), Attr::new("id", "r")], vec![]);
    let p = vec![rustweb::patch::Patch::SetAttr {
        path: vec![],
        name: "class".into(),
        value: rustweb::vnode::AttrValue::String("b".into()),
    }];
    assert_eq!(
        apply_patches_to_tree(root, &p).unwrap(),
        VNode::element("div", vec![Attr::new("id", "r"), Attr::new("class", "b")], vec![])
    );
}

#[test]
fn rotating_left_moves_one_item() {
    let li = |k: &str| keyed("li", k, vec![VNode::text(k)]);
    let old = VNode::element("ul", vec![], vec![li("a"), li("b"), li("c")]);
    let new = VNode::element("ul", vec![], vec![li("b"), li("c"), li("a")]);
    let p = diff(&old, &new);
    assert_eq!(p.iter().filter(|x| x.is_move()).count(), 1);
    assert_eq!(apply_patches_to_tree(old, &p).unwrap(), new);
}

#[test]
fn interleaved_moves_are_fewest() {
    let li = |k: &str| keyed("li", k, vec![VNode::text(k)]);
    // partners in new order: 2, 3, 1, 0; the longest increasing run is 2, 3
    let old = VNode::element("ul", vec![], vec![li("x"), li("y"), li("a"), li("b")]);
    let new = VNode::element("ul", vec![], vec![li("a"), li("b"), li("y"), li("x")]);
    let p = diff(&old, &new);
    assert_eq!(p.iter().filter(|x| x.is_move()).count(), 2);
    assert_eq!(apply_patches_to_tree(old, &p).unwrap(), new);
    // partners 2, 1, 0: one stays, two move
    let old = VNode::element("ul", vec![], vec![li("a"), li("y"), li("x")]);
    let new = VNode::element("ul", vec![], vec![li("x"), li("y"), li("a")]);
    let p = diff(&old, &new);
    assert_eq!(p.iter().filter(|x| x.is_move()).count(), 2);
    assert_eq!(apply_patches_to_tree(old, &p).unwrap(), new);
}
