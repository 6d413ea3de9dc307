use rustweb::html::{parse_html, AttrVal, HtmlNode};
use rustweb::token::{Delim, Tok};

fn id(s: &str) -> Tok {
    Tok::Ident(s.to_string())
}

fn pu(c: char) -> Tok {
    Tok::Punct(c)
}

fn lit(s: &str) -> Tok {
    Tok::Literal(s.to_string())
}

fn brace(inner: Vec<Tok>, text: &str) -> Tok {
    Tok::Group(Delim::Brace, inner, text.to_string())
}

fn open(tag: &str) -> Vec<Tok> {
    vec![pu('<'), id(tag), pu('>')]
}

fn close(tag: &str) -> Vec<Tok> {
    vec![pu('<'), pu('/'), id(tag), pu('>')]
}

fn cat(parts: Vec<Vec<Tok>>) -> Vec<Tok> {
    parts.into_iter().flatten().collect()
}

fn err_of(toks: Vec<Tok>) -> String {
    match parse_html(&toks) {
        Err(e) => e,
        Ok(n) => panic!("expected an error, got {n:?}"),
    }
}

// <main class="app" aria-label="Todo app">
//     <h1>{ title }</h1>
//     <button type="button" aria-pressed="false" disabled={ false }>"Add"</button>
// </main>
#[test]
fn element_with_aria_and_text() {
    let toks = cat(vec![
        vec![pu('<'), id("main"), id("class"), pu('='), lit("\"app\""), id("aria"), pu('-'), id("label"), pu('='), lit("\"Todo app\""), pu('>')],
        open("h1"),
        vec![brace(vec![id("title")], "{ title }")],
        close("h1"),
        vec![
            pu('<'), id("button"), id("type"), pu('='), lit("\"button\""), id("aria"), pu('-'), id("pressed"), pu('='),
            lit("\"false\""), id("disabled"), pu('='), brace(vec![id("false")], "{ false }"), pu('>'),
        ],
        vec![lit("\"Add\"")],
        close("button"),
        close("main"),
    ]);
    let nodes = parse_html(&toks).unwrap();
    assert_eq!(nodes.len(), 1);
    match &nodes[0] {
        HtmlNode::Element(el) => {
            assert_eq!(el.tag, "main");
            assert!(el.attrs.iter().any(|a| a.0 == "aria-label"));
            assert_eq!(el.children.len(), 2);
        }
        other => panic!("expected element, got {other:?}"),
    }
}

// <>
//     <li key={ 1 }>"one"</li>
//     <li key={ 2 }>"two"</li>
// </>
#[test]
fn fragment_and_key() {
    let li = |k: &str, t: &str| {
        cat(vec![
            vec![pu('<'), id("li"), id("key"), pu('='), brace(vec![lit(k)], &format!("{{ {k} }}")), pu('>')],
            vec![lit(&format!("\"{t}\""))],
            close("li"),
        ])
    };
    let toks = cat(vec![vec![pu('<'), pu('>')], li("1", "one"), li("2", "two"), vec![pu('<'), pu('/'), pu('>')]]);
    let nodes = parse_html(&toks).unwrap();
    assert_eq!(nodes.len(), 1);
    assert!(matches!(nodes[0], HtmlNode::Fragment(_)));
    if let HtmlNode::Fragment(c) = &nodes[0] {
        match &c[0] {
            HtmlNode::Element(el) => {
                let key = el.key.as_ref().expect("key");
                assert_eq!(key.len(), 1);
                assert_eq!(key[0].text(), "1");
            }
            other => panic!("expected element, got {other:?}"),
        }
    }
}

// <Button label="Save" disabled={ false } />
#[test]
fn component_tag_builds_typed_props() {
    let toks = vec![
        pu('<'), id("Button"), id("label"), pu('='), lit("\"Save\""), id("disabled"), pu('='),
        brace(vec![id("false")], "{ false }"), pu('/'), pu('>'),
    ];
    let nodes = parse_html(&toks).unwrap();
    match &nodes[0] {
        HtmlNode::Component(c) => {
            assert_eq!(c.name, "Button");
            assert_eq!(c.props.len(), 2);
            assert_eq!(c.props[0].0, "label");
            assert_eq!(c.props[0].1[0].text(), "\"Save\"");
            assert_eq!(c.props[1].0, "disabled");
            assert_eq!(c.props[1].1[0].text(), "false");
            assert!(c.children.is_empty());
        }
        other => panic!("expected component, got {other:?}"),
    }
}

#[test]
fn text_runs_are_joined_and_trimmed() {
    let toks = cat(vec![open("p"), vec![id("hello"), id("world"), pu('!')], close("p")]);
    let nodes = parse_html(&toks).unwrap();
    match &nodes[0] {
        HtmlNode::Element(el) => match &el.children[0] {
            HtmlNode::Text(t) => assert_eq!(t, "hello world !"),
            other => panic!("expected text, got {other:?}"),
        },
        other => panic!("expected element, got {other:?}"),
    }
}

#[test]
fn string_literal_children_are_unescaped() {
    let toks = cat(vec![open("p"), vec![lit("\"a\\nb\"")], close("p")]);
    let nodes = parse_html(&toks).unwrap();
    match &nodes[0] {
        HtmlNode::Element(el) => match &el.children[0] {
            HtmlNode::Text(t) => assert_eq!(t, "a\nb"),
            other => panic!("expected text, got {other:?}"),
        },
        other => panic!("expected element, got {other:?}"),
    }
}

#[test]
fn event_names_are_normalized() {
    let toks = vec![
        pu('<'), id("button"), id("on"), pu(':'), id("click"), pu('='), brace(vec![id("h")], "{ h }"),
        id("onMouseOver"), pu('='), brace(vec![id("g")], "{ g }"), pu('/'), pu('>'),
    ];
    let nodes = parse_html(&toks).unwrap();
    match &nodes[0] {
        HtmlNode::Element(el) => {
            assert_eq!(el.listeners.len(), 2);
            assert_eq!(el.listeners[0].0, "click");
            assert_eq!(el.listeners[1].0, "mouseover");
            assert!(el.attrs.is_empty());
        }
        other => panic!("expected element, got {other:?}"),
    }
}

#[test]
fn component_listeners_become_on_props_and_flags_become_idents() {
    let toks = vec![pu('<'), id("Toggle"), id("checked"), id("onchange"), pu('='), brace(vec![id("f")], "{ f }"), pu('/'), pu('>')];
    let nodes = parse_html(&toks).unwrap();
    match &nodes[0] {
        HtmlNode::Component(c) => {
            assert_eq!(c.props.len(), 2);
            assert_eq!(c.props[0].0, "checked");
            assert_eq!(c.props[0].1[0].text(), "true");
            assert_eq!(c.props[1].0, "on_change");
        }
        other => panic!("expected component, got {other:?}"),
    }
}

#[test]
fn flag_attribute_without_value() {
    let toks = vec![pu('<'), id("input"), id("disabled"), pu('/'), pu('>')];
    let nodes = parse_html(&toks).unwrap();
    match &nodes[0] {
        HtmlNode::Element(el) => {
            assert_eq!(el.attrs.len(), 1);
            assert!(matches!(el.attrs[0].1, AttrVal::Bool(true)));
        }
        other => panic!("expected element, got {other:?}"),
    }
}

#[test]
fn error_empty_input() {
    assert_eq!(
        err_of(vec![]),
        "html! requires at least one node. Hint: use `html! { <div></div> }` or `html! { <>…</> }`"
    );
}

#[test]
fn error_unclosed_tag() {
    assert_eq!(err_of(open("div")), "unclosed tag `<div>`: missing `</div>`");
    assert_eq!(err_of(vec![pu('<'), id("div")]), "unclosed tag `<div>`: expected `>` or `/>`");
}

#[test]
fn error_mismatched_tags() {
    let toks = cat(vec![open("div"), close("span")]);
    assert_eq!(
        err_of(toks),
        "mismatched tags: opened `<div>` but closed `</span>`. Hint: tags are case-sensitive"
    );
}

#[test]
fn error_duplicate_attribute() {
    let toks = vec![pu('<'), id("div"), id("id"), pu('='), lit("\"a\""), id("id"), pu('='), lit("\"b\""), pu('/'), pu('>')];
    assert_eq!(err_of(toks), "duplicate attribute `id` on `<div>`. Hint: remove one occurrence");
}

#[test]
fn error_unknown_aria_with_suggestion() {
    let toks = vec![pu('<'), id("div"), id("aria"), pu('-'), id("lable"), pu('='), lit("\"x\""), pu('/'), pu('>')];
    assert_eq!(
        err_of(toks),
        "unknown ARIA attribute `aria-lable` on `<div>`. Did you mean `aria-label`? See https://www.w3.org/TR/wai-aria-1.2/"
    );
}

#[test]
fn error_unknown_aria_without_suggestion() {
    let toks = vec![pu('<'), id("div"), id("aria"), pu('-'), id("zzzzzzzzzz"), pu('/'), pu('>')];
    assert_eq!(
        err_of(toks),
        "unknown ARIA attribute `aria-zzzzzzzzzz` on `<div>`. Expected a valid `aria-*` attribute or `role`; see https://www.w3.org/TR/wai-aria-1.2/"
    );
}

#[test]
fn error_key_and_handler_values() {
    let key = vec![pu('<'), id("li"), id("key"), pu('/'), pu('>')];
    assert_eq!(err_of(key), "`key` requires a value: use `key={expr}`. Hint: keys must be unique among siblings");
    let key_flag = vec![pu('<'), id("li"), id("key"), pu('='), id("true"), pu('/'), pu('>')];
    assert_eq!(err_of(key_flag), "`key` must be a string/number expression, e.g. `key={item.id}`");
    let no_handler = vec![pu('<'), id("button"), id("onclick"), pu('/'), pu('>')];
    assert_eq!(
        err_of(no_handler),
        "event binding `onclick` requires a handler: use `onclick={handler}`. Hint: handlers are delegated at the root, no per-node listener cost"
    );
    let empty_handler = vec![pu('<'), id("button"), id("onclick"), pu('='), brace(vec![], "{ }"), pu('/'), pu('>')];
    assert_eq!(err_of(empty_handler), "empty handler for `onclick`. Hint: pass a closure or `Link::send` expression");
    let flag_handler = vec![pu('<'), id("button"), id("onclick"), pu('='), id("false"), pu('/'), pu('>')];
    assert_eq!(
        err_of(flag_handler),
        "event `onclick` value must be a Rust expression in braces, e.g. `onclick={on_click}`"
    );
}

#[test]
fn error_void_element_with_children() {
    let toks = cat(vec![open("br"), vec![lit("\"x\"")], close("br")]);
    assert_eq!(
        err_of(toks),
        "<br> is a void element and cannot have children. Hint: use `<br … />`"
    );
}

#[test]
fn error_component_prop_name() {
    let toks = vec![pu('<'), id("Card"), id("data"), pu('-'), id("id"), pu('='), lit("\"1\""), pu('/'), pu('>')];
    assert_eq!(
        err_of(toks),
        "prop `data-id` on `<Card>` is not a valid Rust field name. Hint: rename the prop to `data_id` (dashes become underscores)"
    );
}

#[test]
fn error_trailing_tokens() {
    let toks = cat(vec![open("p"), close("p"), close("div")]);
    assert_eq!(
        err_of(toks),
        "unexpected trailing tokens `< / div >`. Hint: close all tags and wrap siblings in `<>…</>` if needed"
    );
}

#[test]
fn error_empty_block_and_bad_value() {
    let toks = cat(vec![open("p"), vec![brace(vec![], "{ }")], close("p")]);
    assert_eq!(
        err_of(toks),
        "empty `{}` block is not a valid child. Hint: remove it or use `{html!{…}}`"
    );
    let bad = vec![pu('<'), id("a"), id("href"), pu('='), pu('#'), pu('>')];
    assert_eq!(
        err_of(bad),
        "expected attribute value after `=`, found `#`. Hint: wrap Rust expressions in braces, e.g. `attr={expr}`"
    );
    let no_name = vec![pu('<'), pu('#')];
    assert_eq!(err_of(no_name), "expected tag name, found `#`");
}
