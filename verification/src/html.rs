//! The markup language of `html!`: a parser from tokens to a tree of nodes,
//! with the checks on ARIA attributes, event bindings, keys and tags.
use vstd::prelude::*;
use vstd::string::{StringExecFns, StrSliceExecFns};
use crate::strutil::{chars_of, push_char, str_eq, starts_with, has_prefix, string_of_range, is_ws, is_ws_exec};
use crate::token::{Delim, Tok, TokModel, toks_model, tok_text, copy_toks, copy_range, lemma_toks_model_len, lemma_toks_model_index};
use crate::error::{concat, concat_s};

verus! {

broadcast use lemma_toks_model_len, lemma_toks_model_index;

// ---------------------------------------------------------------------------
// Outside behaviour the parser relies on
// ---------------------------------------------------------------------------

/// What `syn` makes of a string literal's source text: its value, or the
/// message of the parse error.
pub uninterp spec fn lit_str_parse(src: Seq<char>) -> Result<Seq<char>, Seq<char>>;

/// Parses a string literal with `syn::parse_str::<syn::LitStr>` and takes
/// its `value()`. Trusted: the result is syn's, named `lit_str_parse`.
#[verifier::external_body]
fn parse_string_literal(src: &str) -> (r: Result<String, String>)
    ensures
        match lit_str_parse(src@) {
            Ok(v) => r matches Ok(x) && x@ == v,
            Err(m) => r matches Err(x) && x@ == m,
        },
{
    match syn::parse_str::<syn::LitStr>(src) {
        Ok(lit) => Ok(lit.value()),
        Err(e) => Err(e.to_string()),
    }
}

/// Whether a character has the Unicode `Uppercase` property.
pub uninterp spec fn upper_char(c: char) -> bool;

/// `char::is_uppercase`. Trusted: the result is std's, named `upper_char`.
#[verifier::external_body]
fn char_is_uppercase(c: char) -> (r: bool)
    ensures
        r == upper_char(c),
{
    c.is_uppercase()
}

/// The Unicode lowercase of a text.
pub uninterp spec fn lowercase(s: Seq<char>) -> Seq<char>;

/// `str::to_lowercase`. Trusted: the result is std's, named `lowercase`.
#[verifier::external_body]
fn to_lowercase(s: &str) -> (r: String)
    ensures
        r@ == lowercase(s@),
{
    s.to_lowercase()
}

// ---------------------------------------------------------------------------
// Names
// ---------------------------------------------------------------------------

/// A tag names a component when it starts with an uppercase letter.
pub open spec fn component_tag(tag: Seq<char>) -> bool {
    tag.len() > 0 && upper_char(tag[0])
}

fn is_component_tag(tag: &str) -> (r: bool)
    ensures
        r == component_tag(tag@),
{
    let cs = chars_of(tag);
    cs.len() > 0 && char_is_uppercase(cs[0])
}

/// `s` without the leading `:`, `-` and `_`.
pub open spec fn trim_event_start(s: Seq<char>) -> Seq<char>
    decreases s.len(),
{
    if s.len() > 0 && (s[0] == ':' || s[0] == '-' || s[0] == '_') {
        trim_event_start(s.skip(1))
    } else {
        s
    }
}

/// The event an attribute binds: `onclick`, `on:click`, `on-click` and
/// `on_click` all bind `click` (lowercased).
pub open spec fn event_of(name: Seq<char>) -> Option<Seq<char>> {
    if !has_prefix(name, "on"@) || name.len() <= 2 {
        None
    } else {
        let rest = trim_event_start(name.skip(2));
        if rest.len() == 0 {
            None
        } else {
            Some(lowercase(rest))
        }
    }
}

fn normalize_event(name: &str) -> (r: Option<String>)
    ensures
        match event_of(name@) {
            Some(e) => r matches Some(x) && x@ == e,
            None => r is None,
        },
{
    let cs = chars_of(name);
    if !starts_with(name, "on") || cs.len() <= 2 {
        return None;
    }
    proof {
        reveal_strlit("on");
    }
    let mut i: usize = 2;
    assert(cs@.skip(2) =~= name@.skip(2));
    while i < cs.len() && (cs[i] == ':' || cs[i] == '-' || cs[i] == '_')
        invariant
            2 <= i <= cs@.len(),
            cs@ == name@,
            trim_event_start(name@.skip(2)) == trim_event_start(cs@.skip(i as int)),
        decreases cs@.len() - i,
    {
        assert(cs@.skip(i as int).skip(1) =~= cs@.skip(i + 1));
        i = i + 1;
    }
    if i >= cs.len() {
        assert(cs@.skip(i as int).len() == 0);
        return None;
    }
    let rest = string_of_range(&cs, i, cs.len());
    assert(rest@ =~= cs@.skip(i as int));
    Some(to_lowercase(rest.as_str()))
}

// ---------------------------------------------------------------------------
// ARIA attributes
// ---------------------------------------------------------------------------

/// The ARIA attributes the markup accepts.
pub open spec fn known_aria_s() -> Seq<Seq<char>> {
    seq![
        "aria-activedescendant"@,
        "aria-atomic"@,
        "aria-autocomplete"@,
        "aria-busy"@,
        "aria-checked"@,
        "aria-colcount"@,
        "aria-colindex"@,
        "aria-colspan"@,
        "aria-controls"@,
        "aria-current"@,
        "aria-describedby"@,
        "aria-details"@,
        "aria-disabled"@,
        "aria-dropeffect"@,
        "aria-errormessage"@,
        "aria-expanded"@,
        "aria-flowto"@,
        "aria-grabbed"@,
        "aria-haspopup"@,
        "aria-hidden"@,
        "aria-invalid"@,
        "aria-keyshortcuts"@,
        "aria-label"@,
        "aria-labelledby"@,
        "aria-level"@,
        "aria-live"@,
        "aria-modal"@,
        "aria-multiline"@,
        "aria-multiselectable"@,
        "aria-orientation"@,
        "aria-owns"@,
        "aria-placeholder"@,
        "aria-posinset"@,
        "aria-pressed"@,
        "aria-readonly"@,
        "aria-relevant"@,
        "aria-required"@,
        "aria-roledescription"@,
        "aria-rowcount"@,
        "aria-rowindex"@,
        "aria-rowspan"@,
        "aria-selected"@,
        "aria-setsize"@,
        "aria-sort"@,
        "aria-valuemax"@,
        "aria-valuemin"@,
        "aria-valuenow"@,
        "aria-valuetext"@,
        "role"@
    ]
}

/// The WAI-ARIA 1.2 states and properties, and `role`.
pub open spec fn wai_aria_names() -> Seq<Seq<char>> {
    seq![
        "aria-activedescendant"@, "aria-atomic"@, "aria-autocomplete"@, "aria-busy"@,
        "aria-checked"@, "aria-colcount"@, "aria-colindex"@, "aria-colspan"@,
        "aria-controls"@, "aria-current"@, "aria-describedby"@, "aria-details"@,
        "aria-disabled"@, "aria-dropeffect"@, "aria-errormessage"@, "aria-expanded"@,
        "aria-flowto"@, "aria-grabbed"@, "aria-haspopup"@, "aria-hidden"@,
        "aria-invalid"@, "aria-keyshortcuts"@, "aria-label"@, "aria-labelledby"@,
        "aria-level"@, "aria-live"@, "aria-modal"@, "aria-multiline"@,
        "aria-multiselectable"@, "aria-orientation"@, "aria-owns"@, "aria-placeholder"@,
        "aria-posinset"@, "aria-pressed"@, "aria-readonly"@, "aria-relevant"@,
        "aria-required"@, "aria-roledescription"@, "aria-rowcount"@, "aria-rowindex"@,
        "aria-rowspan"@, "aria-selected"@, "aria-setsize"@, "aria-sort"@,
        "aria-valuemax"@, "aria-valuemin"@, "aria-valuenow"@, "aria-valuetext"@,
        "role"@
    ]
}

/// Every WAI-ARIA 1.2 state and property, and `role`, is a known name:
/// none of them is ever refused as an unknown ARIA attribute.
pub proof fn law_wai_aria_names_accepted()
    ensures
        forall|i: int| 0 <= i < wai_aria_names().len() ==> known_aria_s().contains(#[trigger] wai_aria_names()[i]),
        forall|i: int| 0 <= i < wai_aria_names().len() ==> !aria_bad(#[trigger] wai_aria_names()[i]),
{
    assert forall|i: int| 0 <= i < wai_aria_names().len() implies known_aria_s().contains(
        #[trigger] wai_aria_names()[i],
    ) by {
        assert(known_aria_s()[i] == wai_aria_names()[i]);
    }
    assert forall|i: int| 0 <= i < wai_aria_names().len() implies !aria_bad(#[trigger] wai_aria_names()[i]) by {
        assert(known_aria_s()[i] == wai_aria_names()[i]);
    }
}

fn known_aria() -> (r: Vec<&'static str>)
    ensures
        r@.map_values(|x: &str| x@) == known_aria_s(),
{
    let r = vec![
        "aria-activedescendant",
        "aria-atomic",
        "aria-autocomplete",
        "aria-busy",
        "aria-checked",
        "aria-colcount",
        "aria-colindex",
        "aria-colspan",
        "aria-controls",
        "aria-current",
        "aria-describedby",
        "aria-details",
        "aria-disabled",
        "aria-dropeffect",
        "aria-errormessage",
        "aria-expanded",
        "aria-flowto",
        "aria-grabbed",
        "aria-haspopup",
        "aria-hidden",
        "aria-invalid",
        "aria-keyshortcuts",
        "aria-label",
        "aria-labelledby",
        "aria-level",
        "aria-live",
        "aria-modal",
        "aria-multiline",
        "aria-multiselectable",
        "aria-orientation",
        "aria-owns",
        "aria-placeholder",
        "aria-posinset",
        "aria-pressed",
        "aria-readonly",
        "aria-relevant",
        "aria-required",
        "aria-roledescription",
        "aria-rowcount",
        "aria-rowindex",
        "aria-rowspan",
        "aria-selected",
        "aria-setsize",
        "aria-sort",
        "aria-valuemax",
        "aria-valuemin",
        "aria-valuenow",
        "aria-valuetext",
        "role"
    ];
    assert(r@.map_values(|x: &str| x@) =~= known_aria_s());
    r
}

/// The edit distance of two texts (insertions, deletions and substitutions
/// of one character each).
pub open spec fn lev(a: Seq<char>, b: Seq<char>) -> nat
    decreases a.len() + b.len(),
{
    if a.len() == 0 {
        b.len()
    } else if b.len() == 0 {
        a.len()
    } else {
        let sub = lev(a.drop_last(), b.drop_last()) + if a.last() == b.last() {
            0nat
        } else {
            1nat
        };
        let del = lev(a.drop_last(), b) + 1;
        let ins = lev(a, b.drop_last()) + 1;
        if sub <= del && sub <= ins {
            sub
        } else if del <= ins {
            del
        } else {
            ins
        }
    }
}

proof fn lemma_lev_bound(a: Seq<char>, b: Seq<char>)
    ensures
        lev(a, b) <= if a.len() < b.len() {
            b.len()
        } else {
            a.len()
        },
    decreases a.len() + b.len(),
{
    if a.len() > 0 && b.len() > 0 {
        lemma_lev_bound(a.drop_last(), b.drop_last());
    }
}

fn levenshtein(a: &Vec<char>, b: &Vec<char>) -> (r: usize)
    ensures
        r == lev(a@, b@),
{
    let n = b.len();
    let mut prev: Vec<u128> = Vec::new();
    prev.push(0);
    assert(lev(Seq::<char>::empty(), b@.take(0)) == 0);
    for j in 0..n
        invariant
            n == b@.len(),
            prev@.len() == j + 1,
            forall|k: int| 0 <= k <= j ==> prev@[k] == lev(Seq::<char>::empty(), b@.take(k)),
    {
        assert(lev(Seq::<char>::empty(), b@.take(j + 1)) == j + 1);
        prev.push((j + 1) as u128);
    }
    assert(a@.take(0) =~= Seq::<char>::empty());
    for i in 0..a.len()
        invariant
            n == b@.len(),
            prev@.len() == n + 1,
            forall|k: int| 0 <= k <= n ==> prev@[k] == lev(a@.take(i as int), b@.take(k)),
    {
        let mut cur: Vec<u128> = Vec::new();
        proof {
            assert(a@.take(i + 1).len() == i + 1);
        }
        cur.push((i + 1) as u128);
        for jj in 0..n
            invariant
                n == b@.len(),
                i < a@.len(),
                prev@.len() == n + 1,
                forall|k: int| 0 <= k <= n ==> prev@[k] == lev(a@.take(i as int), b@.take(k)),
                cur@.len() == jj + 1,
                forall|k: int| 0 <= k <= jj ==> cur@[k] == lev(a@.take(i + 1), b@.take(k)),
        {
            let cost: u128 = if a[i] != b[jj] {
                1
            } else {
                0
            };
            proof {
                lemma_lev_bound(a@.take(i as int), b@.take(jj as int));
                lemma_lev_bound(a@.take(i + 1), b@.take(jj as int));
                lemma_lev_bound(a@.take(i as int), b@.take(jj + 1));
                let x = a@.take(i + 1);
                let y = b@.take(jj + 1);
                assert(x.drop_last() =~= a@.take(i as int));
                assert(y.drop_last() =~= b@.take(jj as int));
            }
            let s1 = prev[jj] + cost;
            let s2 = cur[jj] + 1;
            let s3 = prev[jj + 1] + 1;
            let m = if s1 <= s2 && s1 <= s3 {
                s1
            } else if s2 <= s3 {
                s2
            } else {
                s3
            };
            cur.push(m);
        }
        prev = cur;
    }
    assert(a@.take(a@.len() as int) =~= a@);
    assert(b@.take(n as int) =~= b@);
    proof {
        lemma_lev_bound(a@, b@);
    }
    prev[n] as usize
}

/// The index of the known ARIA attribute closest to `bad` among the first
/// `i`, counting only those at distance 3 or less; the first of the
/// closest.
pub open spec fn closest_aria(bad: Seq<char>, i: int) -> Option<int>
    decreases i,
{
    if i <= 0 {
        None
    } else {
        let prev = closest_aria(bad, i - 1);
        let d = lev(bad, known_aria_s()[i - 1]);
        if d > 3 {
            prev
        } else {
            match prev {
                None => Some(i - 1),
                Some(j) => if d < lev(bad, known_aria_s()[j]) {
                    Some(i - 1)
                } else {
                    prev
                },
            }
        }
    }
}

/// The suggestion for an unknown ARIA attribute: for `role` and `aria-*`
/// names, the closest known one within distance 3.
pub open spec fn suggestion(bad: Seq<char>) -> Option<Seq<char>> {
    if !has_prefix(bad, "aria-"@) && bad != "role"@ {
        None
    } else {
        match closest_aria(bad, known_aria_s().len() as int) {
            Some(j) => Some(known_aria_s()[j]),
            None => None,
        }
    }
}

fn suggest_aria(bad: &str) -> (r: Option<&'static str>)
    ensures
        match suggestion(bad@) {
            Some(s) => r matches Some(x) && x@ == s,
            None => r is None,
        },
{
    if !starts_with(bad, "aria-") && !str_eq(bad, "role") {
        return None;
    }
    let known = known_aria();
    let bc = chars_of(bad);
    let mut best: Option<(usize, usize)> = None;
    for i in 0..known.len()
        invariant
            known@.map_values(|x: &str| x@) == known_aria_s(),
            bc@ == bad@,
            match closest_aria(bad@, i as int) {
                None => best is None,
                Some(j) => best matches Some((bj, bd)) && bj == j && bd == lev(bad@, known_aria_s()[j]) && j < i,
            },
    {
        let kc = chars_of(known[i]);
        assert(kc@ == known_aria_s()[i as int]);
        let d = levenshtein(&bc, &kc);
        if d <= 3 {
            match best {
                None => {
                    best = Some((i, d));
                },
                Some((_, bd)) => {
                    if d < bd {
                        best = Some((i, d));
                    }
                },
            }
        }
    }
    match best {
        Some((j, _)) => Some(known[j]),
        None => None,
    }
}

// ---------------------------------------------------------------------------
// The parsed tree
// ---------------------------------------------------------------------------

/// An attribute value in markup: a flag, or Rust tokens.
#[derive(Debug)]
pub enum AttrVal {
    Bool(bool),
    Expr(Vec<Tok>),
}

/// An element in markup.
#[derive(Debug)]
pub struct ElNode {
    pub tag: String,
    pub attrs: Vec<(String, AttrVal)>,
    pub listeners: Vec<(String, Vec<Tok>)>,
    pub key: Option<Vec<Tok>>,
    pub children: Vec<HtmlNode>,
}

/// A component in markup: its path, its name, and its props as Rust tokens.
#[derive(Debug)]
pub struct CompNode {
    pub path: Vec<Tok>,
    pub name: String,
    pub props: Vec<(String, Vec<Tok>)>,
    pub key: Option<Vec<Tok>>,
    pub children: Vec<HtmlNode>,
}

/// A node of markup.
#[derive(Debug)]
pub enum HtmlNode {
    Element(ElNode),
    Component(CompNode),
    Fragment(Vec<HtmlNode>),
    Expr(Vec<Tok>),
    Text(String),
}

pub enum AttrValModel {
    Bool(bool),
    Expr(Seq<TokModel>),
}

pub struct ElModel {
    pub tag: Seq<char>,
    pub attrs: Seq<(Seq<char>, AttrValModel)>,
    pub listeners: Seq<(Seq<char>, Seq<TokModel>)>,
    pub key: Option<Seq<TokModel>>,
    pub children: Seq<HtmlModel>,
}

pub struct CompNodeModel {
    pub path: Seq<TokModel>,
    pub name: Seq<char>,
    pub props: Seq<(Seq<char>, Seq<TokModel>)>,
    pub key: Option<Seq<TokModel>>,
    pub children: Seq<HtmlModel>,
}

/// Model of a node of markup.
pub enum HtmlModel {
    Element(ElModel),
    Component(CompNodeModel),
    Fragment(Seq<HtmlModel>),
    Expr(Seq<TokModel>),
    Text(Seq<char>),
}

pub open spec fn attrval_model(v: AttrVal) -> AttrValModel {
    match v {
        AttrVal::Bool(b) => AttrValModel::Bool(b),
        AttrVal::Expr(e) => AttrValModel::Expr(toks_model(e@)),
    }
}

pub open spec fn opt_toks(k: Option<Vec<Tok>>) -> Option<Seq<TokModel>> {
    match k {
        Some(v) => Some(toks_model(v@)),
        None => None,
    }
}

pub open spec fn attrs_m(s: Seq<(String, AttrVal)>) -> Seq<(Seq<char>, AttrValModel)> {
    s.map_values(|a: (String, AttrVal)| (a.0@, attrval_model(a.1)))
}

pub open spec fn named_toks_m(s: Seq<(String, Vec<Tok>)>) -> Seq<(Seq<char>, Seq<TokModel>)> {
    s.map_values(|a: (String, Vec<Tok>)| (a.0@, toks_model(a.1@)))
}

pub open spec fn html_model(n: HtmlNode) -> HtmlModel
    decreases n,
{
    match n {
        HtmlNode::Element(e) => HtmlModel::Element(
            ElModel {
                tag: e.tag@,
                attrs: attrs_m(e.attrs@),
                listeners: named_toks_m(e.listeners@),
                key: opt_toks(e.key),
                children: htmls_model(e.children@),
            },
        ),
        HtmlNode::Component(c) => HtmlModel::Component(
            CompNodeModel {
                path: toks_model(c.path@),
                name: c.name@,
                props: named_toks_m(c.props@),
                key: opt_toks(c.key),
                children: htmls_model(c.children@),
            },
        ),
        HtmlNode::Fragment(v) => HtmlModel::Fragment(htmls_model(v@)),
        HtmlNode::Expr(e) => HtmlModel::Expr(toks_model(e@)),
        HtmlNode::Text(t) => HtmlModel::Text(t@),
    }
}

pub open spec fn htmls_model(s: Seq<HtmlNode>) -> Seq<HtmlModel>
    decreases s,
{
    if s.len() == 0 {
        Seq::empty()
    } else {
        htmls_model(s.drop_last()).push(html_model(s.last()))
    }
}

impl View for HtmlNode {
    type V = HtmlModel;

    open spec fn view(&self) -> HtmlModel {
        html_model(*self)
    }
}

proof fn lemma_htmls_push(s: Seq<HtmlNode>, x: HtmlNode)
    ensures
        htmls_model(s.push(x)) == htmls_model(s).push(x@),
{
    assert(s.push(x).drop_last() =~= s);
}


// ---------------------------------------------------------------------------
// Reading tokens
// ---------------------------------------------------------------------------

/// Token `p` of `t` is the punctuation `c`.
pub open spec fn punct_at(t: Seq<TokModel>, p: int, c: char) -> bool {
    0 <= p < t.len() && t[p] == TokModel::Punct(c)
}

/// Token `p` of `t` is a group in braces.
pub open spec fn brace_at(t: Seq<TokModel>, p: int) -> bool {
    0 <= p < t.len() && t[p] matches TokModel::Group(Delim::Brace, _, _)
}

fn punct_is(toks: &Vec<Tok>, p: usize, c: char) -> (r: bool)
    ensures
        r == punct_at(toks_model(toks@), p as int, c),
{
    if p >= toks.len() {
        return false;
    }
    match &toks[p] {
        Tok::Punct(x) => *x == c,
        _ => false,
    }
}

fn brace_is(toks: &Vec<Tok>, p: usize) -> (r: bool)
    ensures
        r == brace_at(toks_model(toks@), p as int),
{
    if p >= toks.len() {
        return false;
    }
    match &toks[p] {
        Tok::Group(Delim::Brace, _, _) => true,
        _ => false,
    }
}

fn char_string(c: char) -> (r: String)
    ensures
        r@ == seq![c],
{
    let mut s = String::new();
    push_char(&mut s, c);
    assert(s@ =~= seq![c]);
    s
}

// ---------------------------------------------------------------------------
// Messages
// ---------------------------------------------------------------------------

pub open spec fn expected_found_msg(c: char, found: Seq<char>) -> Seq<char> {
    "expected `"@ + seq![c] + "`, found `"@ + found + "`"@
}

pub open spec fn expected_end_msg(c: char) -> Seq<char> {
    "expected `"@ + seq![c] + "`, found end of macro input"@
}

/// The punctuation `c` at `p`: the position after it, or the error.
pub open spec fn expect_s(t: Seq<TokModel>, p: int, c: char) -> Result<int, Seq<char>> {
    if p < 0 || p >= t.len() {
        Err(expected_end_msg(c))
    } else if t[p] == TokModel::Punct(c) {
        Ok(p + 1)
    } else {
        Err(expected_found_msg(c, tok_text(t[p])))
    }
}

fn expect(toks: &Vec<Tok>, p: usize, c: char) -> (r: Result<usize, String>)
    ensures
        match expect_s(toks_model(toks@), p as int, c) {
            Ok(q) => r matches Ok(x) && x == q,
            Err(m) => r matches Err(x) && x@ == m,
        },
{
    let cs = char_string(c);
    if p >= toks.len() {
        let m = crate::error::concat(&["expected `", cs.as_str(), "`, found end of macro input"]);
        proof {
            reveal_with_fuel(crate::error::concat_s, 4);
        }
        assert(m@ =~= expected_end_msg(c));
        return Err(m);
    }
    if punct_is(toks, p, c) {
        return Ok(p + 1);
    }
    let f = toks[p].text();
    let m = crate::error::concat(&["expected `", cs.as_str(), "`, found `", f.as_str(), "`"]);
    proof {
        reveal_with_fuel(crate::error::concat_s, 6);
    }
    assert(m@ =~= expected_found_msg(c, tok_text(toks_model(toks@)[p as int])));
    Err(m)
}

// ---------------------------------------------------------------------------
// Tag names
// ---------------------------------------------------------------------------

/// The rest of a tag path after its identifier `last`, from `q`: more
/// `::`-separated identifiers. The short name is the last identifier.
pub open spec fn tag_rest_s(t: Seq<TokModel>, q: int, last: Seq<char>) -> Result<(Seq<char>, int), Seq<char>>
    decreases t.len() - q,
{
    if q < 0 {
        Ok((last, q))
    } else if punct_at(t, q, ':') && punct_at(t, q + 1, ':') {
        if q + 2 >= t.len() {
            Err("expected identifier after `::`"@)
        } else {
            match t[q + 2] {
                TokModel::Ident(id) => tag_rest_s(t, q + 3, id),
                _ => Err("expected identifier after `::` in tag path"@),
            }
        }
    } else {
        Ok((last, q))
    }
}

/// A tag name at `p`: its short name (the last identifier of the path) and
/// the position after the path.
pub open spec fn tag_name_s(t: Seq<TokModel>, p: int) -> Result<(Seq<char>, int), Seq<char>> {
    if p < 0 || p >= t.len() {
        Err("expected tag name, found end of input"@)
    } else {
        match t[p] {
            TokModel::Ident(id) => tag_rest_s(t, p + 1, id),
            other => Err("expected tag name, found `"@ + tok_text(other) + "`"@),
        }
    }
}

proof fn lemma_tag_rest_pos(t: Seq<TokModel>, q: int, last: Seq<char>)
    requires
        0 <= q <= t.len(),
    ensures
        tag_rest_s(t, q, last) matches Ok((_, r)) ==> q <= r <= t.len(),
    decreases t.len() - q,
{
    if punct_at(t, q, ':') && punct_at(t, q + 1, ':') && q + 2 < t.len() {
        if let TokModel::Ident(id) = t[q + 2] {
            lemma_tag_rest_pos(t, q + 3, id);
        }
    }
}

fn tag_name(toks: &Vec<Tok>, p: usize) -> (r: Result<(String, usize), String>)
    requires
        p <= toks@.len(),
    ensures
        match tag_name_s(toks_model(toks@), p as int) {
            Ok((n, q)) => r matches Ok((x, y)) && x@ == n && y == q && p < q <= toks@.len(),
            Err(m) => r matches Err(x) && x@ == m,
        },
{
    let ghost t = toks_model(toks@);
    if p >= toks.len() {
        return Err("expected tag name, found end of input".to_string());
    }
    let mut last: String = match &toks[p] {
        Tok::Ident(id) => id.clone(),
        other => {
            let f = other.text();
            let m = crate::error::concat(&["expected tag name, found `", f.as_str(), "`"]);
            proof {
                reveal_with_fuel(crate::error::concat_s, 4);
            }
            assert(m@ =~= "expected tag name, found `"@ + tok_text(t[p as int]) + "`"@);
            return Err(m);
        },
    };
    let mut q = p + 1;
    while q < toks.len() && punct_is(toks, q, ':') && punct_is(toks, q + 1, ':')
        invariant
            t == toks_model(toks@),
            t.len() == toks@.len(),
            p < q <= toks@.len(),
            tag_name_s(t, p as int) == tag_rest_s(t, q as int, last@),
        decreases toks@.len() - q,
    {
        assert(punct_at(t, q as int, ':') && punct_at(t, q + 1, ':'));
        if toks.len() - q <= 2 {
            assert(tag_rest_s(t, q as int, last@) == Err::<(Seq<char>, int), Seq<char>>("expected identifier after `::`"@));
            return Err("expected identifier after `::`".to_string());
        }
        match &toks[q + 2] {
            Tok::Ident(id) => {
                last = id.clone();
                q = q + 3;
            },
            _ => {
                return Err("expected identifier after `::` in tag path".to_string());
            },
        }
    }
    Ok((last, q))
}

// ---------------------------------------------------------------------------
// Attribute names and values
// ---------------------------------------------------------------------------

/// The rest of an attribute name `name` from `q`: identifiers joined by `-`
/// or `:`.
pub open spec fn attr_rest_s(t: Seq<TokModel>, q: int, name: Seq<char>) -> Result<(Seq<char>, int), Seq<char>>
    decreases t.len() - q,
{
    if q < 0 {
        Ok((name, q))
    } else if punct_at(t, q, '-') || punct_at(t, q, ':') {
        let ch = if punct_at(t, q, '-') { '-' } else { ':' };
        let n2 = name.push(ch);
        if q + 1 >= t.len() {
            Err("expected identifier after `"@ + seq![ch] + "`"@)
        } else {
            match t[q + 1] {
                TokModel::Ident(id) => attr_rest_s(t, q + 2, n2 + id),
                _ => Err("expected identifier after `"@ + seq![ch] + "` in attribute `"@ + n2 + "`"@),
            }
        }
    } else {
        Ok((name, q))
    }
}

/// An attribute name at `p` and the position after it.
pub open spec fn attr_name_s(t: Seq<TokModel>, p: int) -> Result<(Seq<char>, int), Seq<char>> {
    if p < 0 || p >= t.len() {
        Err("expected attribute name"@)
    } else {
        match t[p] {
            TokModel::Ident(id) => attr_rest_s(t, p + 1, id),
            other => Err("expected attribute name, found `"@ + tok_text(other) + "`"@),
        }
    }
}

proof fn lemma_attr_rest_pos(t: Seq<TokModel>, q: int, name: Seq<char>)
    requires
        0 <= q <= t.len(),
    ensures
        attr_rest_s(t, q, name) matches Ok((_, r)) ==> q <= r <= t.len(),
    decreases t.len() - q,
{
    if (punct_at(t, q, '-') || punct_at(t, q, ':')) && q + 1 < t.len() {
        let ch = if punct_at(t, q, '-') { '-' } else { ':' };
        if let TokModel::Ident(id) = t[q + 1] {
            lemma_attr_rest_pos(t, q + 2, name.push(ch) + id);
        }
    }
}

/// An attribute name read at `p` ends after `p`.
pub proof fn lemma_attr_name_pos(t: Seq<TokModel>, p: int)
    ensures
        attr_name_s(t, p) matches Ok((_, r)) ==> p < r <= t.len(),
{
    if 0 <= p < t.len() {
        if let TokModel::Ident(id) = t[p] {
            lemma_attr_rest_pos(t, p + 1, id);
        }
    }
}

fn attr_name(toks: &Vec<Tok>, p: usize) -> (r: Result<(String, usize), String>)
    requires
        p <= toks@.len(),
    ensures
        match attr_name_s(toks_model(toks@), p as int) {
            Ok((n, q)) => r matches Ok((x, y)) && x@ == n && y == q && p < q <= toks@.len(),
            Err(m) => r matches Err(x) && x@ == m,
        },
{
    let ghost t = toks_model(toks@);
    if p >= toks.len() {
        return Err("expected attribute name".to_string());
    }
    let mut name: String = match &toks[p] {
        Tok::Ident(id) => id.clone(),
        other => {
            let f = other.text();
            let m = crate::error::concat(&["expected attribute name, found `", f.as_str(), "`"]);
            proof {
                reveal_with_fuel(crate::error::concat_s, 4);
            }
            assert(m@ =~= "expected attribute name, found `"@ + tok_text(t[p as int]) + "`"@);
            return Err(m);
        },
    };
    let mut q = p + 1;
    loop
        invariant
            t == toks_model(toks@),
            t.len() == toks@.len(),
            p < q <= toks@.len(),
            attr_name_s(t, p as int) == attr_rest_s(t, q as int, name@),
        decreases toks@.len() - q,
    {
        let dash = punct_is(toks, q, '-');
        let colon = punct_is(toks, q, ':');
        if !dash && !colon {
            return Ok((name, q));
        }
        let ch = if dash { '-' } else { ':' };
        let ghost n0 = name@;
        push_char(&mut name, ch);
        let cs = char_string(ch);
        assert(attr_rest_s(t, q as int, n0) == (if q + 1 >= t.len() {
            Err("expected identifier after `"@ + seq![ch] + "`"@)
        } else {
            match t[q + 1] {
                TokModel::Ident(id) => attr_rest_s(t, q + 2, name@ + id),
                _ => Err("expected identifier after `"@ + seq![ch] + "` in attribute `"@ + name@ + "`"@),
            }
        }));
        if toks.len() - q <= 1 {
            let m = crate::error::concat(&["expected identifier after `", cs.as_str(), "`"]);
            proof {
                reveal_with_fuel(crate::error::concat_s, 4);
            }
            assert(m@ =~= "expected identifier after `"@ + seq![ch] + "`"@);
            return Err(m);
        }
        match &toks[q + 1] {
            Tok::Ident(id) => {
                name.append(id.as_str());
                q = q + 2;
            },
            _ => {
                let m = crate::error::concat(&["expected identifier after `", cs.as_str(), "` in attribute `", name.as_str(), "`"]);
                proof {
                    reveal_with_fuel(crate::error::concat_s, 6);
                }
                assert(m@ =~= "expected identifier after `"@ + seq![ch] + "` in attribute `"@ + name@ + "`"@);
                return Err(m);
            },
        }
    }
}

pub open spec fn bad_value_msg(found: Seq<char>) -> Seq<char> {
    "expected attribute value after `=`, found `"@ + found
        + "`. Hint: wrap Rust expressions in braces, e.g. `attr={expr}`"@
}

/// An attribute value at `p`: a braced group gives its tokens, a literal or
/// an identifier gives itself, `true` and `false` give a flag.
pub open spec fn attr_value_s(t: Seq<TokModel>, p: int) -> Result<(AttrValModel, int), Seq<char>> {
    if p < 0 || p >= t.len() {
        Err("expected attribute value, found end of input"@)
    } else {
        match t[p] {
            TokModel::Group(Delim::Brace, inner, _) => Ok((AttrValModel::Expr(inner), p + 1)),
            TokModel::Literal(_) => Ok((AttrValModel::Expr(seq![t[p]]), p + 1)),
            TokModel::Ident(id) => if id == "true"@ {
                Ok((AttrValModel::Bool(true), p + 1))
            } else if id == "false"@ {
                Ok((AttrValModel::Bool(false), p + 1))
            } else {
                Ok((AttrValModel::Expr(seq![t[p]]), p + 1))
            },
            other => Err(bad_value_msg(tok_text(other))),
        }
    }
}

fn attr_value(toks: &Vec<Tok>, p: usize) -> (r: Result<(AttrVal, usize), String>)
    ensures
        match attr_value_s(toks_model(toks@), p as int) {
            Ok((v, q)) => r matches Ok((x, y)) && attrval_model(x) == v && y == q,
            Err(m) => r matches Err(x) && x@ == m,
        },
{
    let ghost t = toks_model(toks@);
    if p >= toks.len() {
        return Err("expected attribute value, found end of input".to_string());
    }
    match &toks[p] {
        Tok::Group(Delim::Brace, inner, _) => Ok((AttrVal::Expr(copy_toks(inner)), p + 1)),
        Tok::Literal(_) => {
            let v = vec![toks[p].copy()];
            assert(toks_model(v@) =~= seq![t[p as int]]) by {
                assert(v@.drop_last() =~= Seq::<Tok>::empty());
            }
            Ok((AttrVal::Expr(v), p + 1))
        },
        Tok::Ident(id) => {
            if str_eq(id.as_str(), "true") {
                Ok((AttrVal::Bool(true), p + 1))
            } else if str_eq(id.as_str(), "false") {
                Ok((AttrVal::Bool(false), p + 1))
            } else {
                let v = vec![toks[p].copy()];
                assert(toks_model(v@) =~= seq![t[p as int]]) by {
                    assert(v@.drop_last() =~= Seq::<Tok>::empty());
                }
                Ok((AttrVal::Expr(v), p + 1))
            }
        },
        other => {
            let f = other.text();
            let m = crate::error::concat(&["expected attribute value after `=`, found `", f.as_str(), "`. Hint: wrap Rust expressions in braces, e.g. `attr={expr}`"]);
            proof {
                reveal_with_fuel(crate::error::concat_s, 4);
            }
            assert(m@ =~= bad_value_msg(tok_text(t[p as int])));
            Err(m)
        },
    }
}


// ---------------------------------------------------------------------------
// Text children
// ---------------------------------------------------------------------------

/// The end of a run of text tokens from `p`: the first `<`, braced group or
/// the end of input.
pub open spec fn run_end_s(t: Seq<TokModel>, p: int) -> int
    decreases t.len() - p,
{
    if p < 0 || p >= t.len() || punct_at(t, p, '<') || brace_at(t, p) {
        p
    } else {
        run_end_s(t, p + 1)
    }
}

/// The text of tokens `p..q`, each followed by a space.
pub open spec fn run_text_s(t: Seq<TokModel>, p: int, q: int) -> Seq<char>
    decreases q - p,
{
    if q <= p {
        Seq::empty()
    } else {
        run_text_s(t, p, q - 1) + tok_text(t[q - 1]) + " "@
    }
}

/// `s` without its leading whitespace.
pub open spec fn trim_start_s(s: Seq<char>) -> Seq<char>
    decreases s.len(),
{
    if s.len() > 0 && is_ws(s[0]) {
        trim_start_s(s.skip(1))
    } else {
        s
    }
}

/// `s` without its trailing whitespace.
pub open spec fn trim_end_s(s: Seq<char>) -> Seq<char>
    decreases s.len(),
{
    if s.len() > 0 && is_ws(s.last()) {
        trim_end_s(s.drop_last())
    } else {
        s
    }
}

/// `s` without leading and trailing whitespace, as `str::trim` gives it.
pub open spec fn trim_s(s: Seq<char>) -> Seq<char> {
    trim_end_s(trim_start_s(s))
}

/// A run of text read at `p`: where it ends, and the children after it (a
/// text node of the trimmed text, unless that is empty).
pub open spec fn run_step_s(t: Seq<TokModel>, p: int, acc: Seq<HtmlModel>) -> (int, Seq<HtmlModel>) {
    let q = run_end_s(t, p);
    let txt = trim_s(run_text_s(t, p, q));
    (q, if txt.len() > 0 { acc.push(HtmlModel::Text(txt)) } else { acc })
}

/// A run of text tokens ends after its first token and not past the input.
pub proof fn lemma_run_end(t: Seq<TokModel>, p: int)
    requires
        0 <= p <= t.len(),
    ensures
        p <= run_end_s(t, p) <= t.len(),
        p < t.len() && !punct_at(t, p, '<') && !brace_at(t, p) ==> p < run_end_s(t, p),
    decreases t.len() - p,
{
    if p < t.len() && !punct_at(t, p, '<') && !brace_at(t, p) {
        lemma_run_end(t, p + 1);
    }
}

/// The texts of tokens joined by single spaces.
pub open spec fn join_texts(s: Seq<TokModel>) -> Seq<char>
    decreases s.len(),
{
    if s.len() == 0 {
        Seq::empty()
    } else if s.len() == 1 {
        tok_text(s[0])
    } else {
        join_texts(s.drop_last()) + " "@ + tok_text(s.last())
    }
}

// ---------------------------------------------------------------------------
// Messages of the grammar
// ---------------------------------------------------------------------------

pub open spec fn unclosed_missing_msg(tag: Seq<char>) -> Seq<char> {
    "unclosed tag `<"@ + tag + ">`: missing `</"@ + tag + ">`"@
}

pub open spec fn empty_block_msg() -> Seq<char> {
    "empty `{}` block is not a valid child. Hint: remove it or use `{html!{…}}`"@
}

pub open spec fn bad_literal_msg(e: Seq<char>) -> Seq<char> {
    "invalid string literal child: "@ + e
}

pub open spec fn unclosed_open_msg(tag: Seq<char>) -> Seq<char> {
    "unclosed tag `<"@ + tag + ">`: expected `>` or `/>`"@
}

pub open spec fn duplicate_msg(a: Seq<char>, tag: Seq<char>) -> Seq<char> {
    "duplicate attribute `"@ + a + "` on `<"@ + tag + ">`. Hint: remove one occurrence"@
}

pub open spec fn aria_suggest_msg(a: Seq<char>, tag: Seq<char>, sug: Seq<char>) -> Seq<char> {
    "unknown ARIA attribute `"@ + a + "` on `<"@ + tag + ">`. Did you mean `"@ + sug
        + "`? See https://www.w3.org/TR/wai-aria-1.2/"@
}

pub open spec fn aria_unknown_msg(a: Seq<char>, tag: Seq<char>) -> Seq<char> {
    "unknown ARIA attribute `"@ + a + "` on `<"@ + tag
        + ">`. Expected a valid `aria-*` attribute or `role`; see https://www.w3.org/TR/wai-aria-1.2/"@
}

pub open spec fn key_value_msg() -> Seq<char> {
    "`key` requires a value: use `key={expr}`. Hint: keys must be unique among siblings"@
}

pub open spec fn key_expr_msg() -> Seq<char> {
    "`key` must be a string/number expression, e.g. `key={item.id}`"@
}

pub open spec fn handler_missing_msg(a: Seq<char>) -> Seq<char> {
    "event binding `"@ + a + "` requires a handler: use `"@ + a
        + "={handler}`. Hint: handlers are delegated at the root, no per-node listener cost"@
}

pub open spec fn handler_empty_msg(a: Seq<char>) -> Seq<char> {
    "empty handler for `"@ + a + "`. Hint: pass a closure or `Link::send` expression"@
}

pub open spec fn handler_expr_msg(a: Seq<char>) -> Seq<char> {
    "event `"@ + a + "` value must be a Rust expression in braces, e.g. `"@ + a + "={on_click}`"@
}

pub open spec fn close_gt_msg(c: Seq<char>) -> Seq<char> {
    "expected `>` to close `</"@ + c + ">`"@
}

pub open spec fn mismatch_msg(tag: Seq<char>, c: Seq<char>) -> Seq<char> {
    "mismatched tags: opened `<"@ + tag + ">` but closed `</"@ + c + ">`. Hint: tags are case-sensitive"@
}

pub open spec fn void_children_msg(tag: Seq<char>) -> Seq<char> {
    "<"@ + tag + "> is a void element and cannot have children. Hint: use `<"@ + tag + " … />`"@
}

/// A prop name with `-` and `:` replaced by `_`.
pub open spec fn field_name(n: Seq<char>) -> Seq<char> {
    n.map_values(|c: char| if c == '-' || c == ':' { '_' } else { c })
}

pub open spec fn prop_name_msg(n: Seq<char>, tag: Seq<char>) -> Seq<char> {
    "prop `"@ + n + "` on `<"@ + tag + ">` is not a valid Rust field name. Hint: rename the prop to `"@
        + field_name(n) + "` (dashes become underscores)"@
}

pub open spec fn empty_input_msg() -> Seq<char> {
    "html! requires at least one node. Hint: use `html! { <div></div> }` or `html! { <>…</> }`"@
}

pub open spec fn trailing_msg(rest: Seq<char>) -> Seq<char> {
    "unexpected trailing tokens `"@ + rest
        + "`. Hint: close all tags and wrap siblings in `<>…</>` if needed"@
}

// ---------------------------------------------------------------------------
// Elements and components
// ---------------------------------------------------------------------------

/// What has been read of an opening tag.
pub struct TagModel {
    pub short: Seq<char>,
    pub path: Seq<TokModel>,
    pub attrs: Seq<(Seq<char>, AttrValModel)>,
    pub listeners: Seq<(Seq<char>, Seq<TokModel>)>,
    pub key: Option<Seq<TokModel>>,
    pub seen: Seq<Seq<char>>,
}

/// An `aria…` name that is not a known ARIA attribute.
pub open spec fn aria_bad(a: Seq<char>) -> bool {
    has_prefix(a, "aria"@) && a.len() > 4 && !known_aria_s().contains(a)
}

/// A name that cannot be a Rust field: it holds `-` or `:`.
pub open spec fn bad_field(n: Seq<char>) -> bool {
    n.contains('-') || n.contains(':')
}

/// The first attribute, in order, whose name cannot be a Rust field.
pub open spec fn first_bad_field(a: Seq<(Seq<char>, AttrValModel)>) -> Option<Seq<char>>
    decreases a.len(),
{
    if a.len() == 0 {
        None
    } else {
        match first_bad_field(a.drop_last()) {
            Some(n) => Some(n),
            None => if bad_field(a.last().0) {
                Some(a.last().0)
            } else {
                None
            },
        }
    }
}

/// The tokens a flag passes as a prop.
pub open spec fn flag_toks(b: bool) -> Seq<TokModel> {
    seq![TokModel::Ident(if b { "true"@ } else { "false"@ })]
}

/// An attribute as a component prop.
pub open spec fn attr_prop(a: (Seq<char>, AttrValModel)) -> (Seq<char>, Seq<TokModel>) {
    (a.0, match a.1 {
        AttrValModel::Expr(e) => e,
        AttrValModel::Bool(b) => flag_toks(b),
    })
}

/// An event binding as a component prop `on_<event>`.
pub open spec fn listener_prop(l: (Seq<char>, Seq<TokModel>)) -> (Seq<char>, Seq<TokModel>) {
    ("on_"@ + l.0, l.1)
}

/// The node a tag makes once its children are read.
pub open spec fn finish_s(st: TagModel, kids: Seq<HtmlModel>, self_closed: bool) -> Result<HtmlModel, Seq<char>> {
    if !component_tag(st.short) && !self_closed && crate::ssr::void_tag(st.short) && kids.len() > 0 {
        Err(void_children_msg(st.short))
    } else if component_tag(st.short) {
        match first_bad_field(st.attrs) {
            Some(n) => Err(prop_name_msg(n, st.short)),
            None => Ok(HtmlModel::Component(CompNodeModel {
                path: st.path,
                name: st.short,
                props: st.attrs.map_values(|a: (Seq<char>, AttrValModel)| attr_prop(a))
                    + st.listeners.map_values(|l: (Seq<char>, Seq<TokModel>)| listener_prop(l)),
                key: st.key,
                children: kids,
            })),
        }
    } else {
        Ok(HtmlModel::Element(ElModel {
            tag: st.short,
            attrs: st.attrs,
            listeners: st.listeners,
            key: st.key,
            children: kids,
        }))
    }
}

/// A tag name read at `p` ends after `p` and not past the input.
pub proof fn lemma_tag_name_pos(t: Seq<TokModel>, p: int)
    ensures
        tag_name_s(t, p) matches Ok((_, r)) ==> p < r <= t.len(),
{
    if 0 <= p < t.len() {
        if let TokModel::Ident(id) = t[p] {
            lemma_tag_rest_pos(t, p + 1, id);
        }
    }
}

/// Children from `p` until the closing tag, or the end of input where
/// `stop` is `None`; `acc` holds those read so far. The result is the
/// children and the position after them.
pub open spec fn nodes_s(t: Seq<TokModel>, p: int, stop: Option<Seq<char>>, acc: Seq<HtmlModel>) -> Result<(Seq<HtmlModel>, int), Seq<char>>
    decreases t.len() - p, 2int,
{
    if p < 0 || p >= t.len() {
        match stop {
            Some(tag) => Err(unclosed_missing_msg(tag)),
            None => Ok((acc, p)),
        }
    } else if punct_at(t, p, '<') {
        if punct_at(t, p + 1, '/') {
            Ok((acc, p))
        } else {
            match element_s(t, p) {
                Err(e) => Err(e),
                // An element read at `p` ends after `p`; the test keeps the
                // definition well founded.
                Ok((n, q)) => if p < q <= t.len() {
                    nodes_s(t, q, stop, acc.push(n))
                } else {
                    Ok((acc, p))
                },
            }
        }
    } else {
        match t[p] {
            TokModel::Group(Delim::Brace, inner, _) => if inner.len() == 0 {
                Err(empty_block_msg())
            } else {
                nodes_s(t, p + 1, stop, acc.push(HtmlModel::Expr(inner)))
            },
            TokModel::Literal(l) if l.len() > 0 && l[0] == '"' => match lit_str_parse(l) {
                Ok(v) => nodes_s(t, p + 1, stop, acc.push(HtmlModel::Text(v))),
                Err(e) => Err(bad_literal_msg(e)),
            },
            _ => {
                proof {
                    lemma_run_end(t, p);
                }
                let (q, acc2) = run_step_s(t, p, acc);
                nodes_s(t, q, stop, acc2)
            },
        }
    }
}

/// An element, component or fragment at `p` (where `<` stands), and the
/// position after it.
pub open spec fn element_s(t: Seq<TokModel>, p: int) -> Result<(HtmlModel, int), Seq<char>>
    decreases t.len() - p, 1int,
{
    if p < 0 || p >= t.len() {
        Err(expected_end_msg('<'))
    } else if t[p] != TokModel::Punct('<') {
        Err(expected_found_msg('<', tok_text(t[p])))
    } else if punct_at(t, p + 1, '>') {
        match nodes_s(t, p + 2, Some(Seq::empty()), Seq::empty()) {
            Err(e) => Err(e),
            Ok((kids, r)) => match expect_s(t, r, '<') {
                Err(e) => Err(e),
                Ok(r1) => match expect_s(t, r1, '/') {
                    Err(e) => Err(e),
                    Ok(r2) => match expect_s(t, r2, '>') {
                        Err(e) => Err(e),
                        Ok(r3) => Ok((HtmlModel::Fragment(kids), r3)),
                    },
                },
            },
        }
    } else {
        match tag_name_s(t, p + 1) {
            Err(e) => Err(e),
            Ok((short, q)) => {
                proof {
                    lemma_tag_name_pos(t, p + 1);
                }
                attrs_s(
                    t,
                    q,
                    TagModel {
                        short,
                        path: t.subrange(p + 1, q),
                        attrs: Seq::empty(),
                        listeners: Seq::empty(),
                        key: None,
                        seen: Seq::empty(),
                    },
                )
            },
        }
    }
}

/// The attributes of an opening tag from `q`, then its children and
/// closing tag.
pub open spec fn attrs_s(t: Seq<TokModel>, q: int, st: TagModel) -> Result<(HtmlModel, int), Seq<char>>
    decreases t.len() - q, 0int,
{
    if q < 0 || q > t.len() {
        Err(unclosed_open_msg(st.short))
    } else if punct_at(t, q, '/') {
        match expect_s(t, q + 1, '>') {
            Err(e) => Err(e),
            Ok(r) => match finish_s(st, Seq::empty(), true) {
                Err(e) => Err(e),
                Ok(n) => Ok((n, r)),
            },
        }
    } else if punct_at(t, q, '>') {
        close_s(t, q + 1, st)
    } else if q >= t.len() {
        Err(unclosed_open_msg(st.short))
    } else {
        match attr_name_s(t, q) {
            Err(e) => Err(e),
            Ok((a, q2)) => {
                proof {
                    lemma_attr_name_pos(t, q);
                }
                if st.seen.contains(a) {
                    Err(duplicate_msg(a, st.short))
                } else if aria_bad(a) {
                    match suggestion(a) {
                        Some(sg) => Err(aria_suggest_msg(a, st.short, sg)),
                        None => Err(aria_unknown_msg(a, st.short)),
                    }
                } else if a == "key"@ {
                    if !punct_at(t, q2, '=') {
                        Err(key_value_msg())
                    } else {
                        match attr_value_s(t, q2 + 1) {
                            Err(e) => Err(e),
                            Ok((v, q3)) => match v {
                                AttrValModel::Expr(e) => attrs_s(t, q3, TagModel { key: Some(e), seen: st.seen.push(a), ..st }),
                                AttrValModel::Bool(_) => Err(key_expr_msg()),
                            },
                        }
                    }
                } else {
                    match event_of(a) {
                        Some(ev) => if !punct_at(t, q2, '=') {
                            Err(handler_missing_msg(a))
                        } else {
                            match attr_value_s(t, q2 + 1) {
                                Err(e) => Err(e),
                                Ok((v, q3)) => match v {
                                    AttrValModel::Expr(e) => if e.len() == 0 {
                                        Err(handler_empty_msg(a))
                                    } else {
                                        attrs_s(t, q3, TagModel { listeners: st.listeners.push((ev, e)), seen: st.seen.push(a), ..st })
                                    },
                                    AttrValModel::Bool(_) => Err(handler_expr_msg(a)),
                                },
                            }
                        },
                        None => if punct_at(t, q2, '=') {
                            match attr_value_s(t, q2 + 1) {
                                Err(e) => Err(e),
                                Ok((v, q3)) => attrs_s(t, q3, TagModel { attrs: st.attrs.push((a, v)), seen: st.seen.push(a), ..st }),
                            }
                        } else {
                            attrs_s(t, q2, TagModel { attrs: st.attrs.push((a, AttrValModel::Bool(true))), seen: st.seen.push(a), ..st })
                        },
                    }
                }
            },
        }
    }
}

/// The children of a tag from `q`, then its closing tag.
pub open spec fn close_s(t: Seq<TokModel>, q: int, st: TagModel) -> Result<(HtmlModel, int), Seq<char>>
    decreases t.len() - q, 3int,
{
    if q < 0 || q > t.len() {
        Err(unclosed_missing_msg(st.short))
    } else {
        match nodes_s(t, q, Some(st.short), Seq::empty()) {
            Err(e) => Err(e),
            Ok((kids, r)) => if !punct_at(t, r, '<') || !punct_at(t, r + 1, '/') {
                Err(unclosed_missing_msg(st.short))
            } else {
                match tag_name_s(t, r + 2) {
                    Err(e) => Err(e),
                    Ok((c, r2)) => if !punct_at(t, r2, '>') {
                        Err(close_gt_msg(c))
                    } else if c != st.short {
                        Err(mismatch_msg(st.short, c))
                    } else {
                        match finish_s(st, kids, false) {
                            Err(e) => Err(e),
                            Ok(n) => Ok((n, r2 + 1)),
                        }
                    },
                }
            },
        }
    }
}

/// The markup of a token stream: its nodes, or the message of the first
/// error.
pub open spec fn parse_html_s(t: Seq<TokModel>) -> Result<Seq<HtmlModel>, Seq<char>> {
    if t.len() == 0 {
        Err(empty_input_msg())
    } else {
        match nodes_s(t, 0, None, Seq::empty()) {
            Err(e) => Err(e),
            Ok((ns, p)) => if 0 <= p < t.len() {
                Err(trailing_msg(join_texts(t.skip(p))))
            } else {
                Ok(ns)
            },
        }
    }
}


// ---------------------------------------------------------------------------
// Executable helpers of the grammar
// ---------------------------------------------------------------------------

fn trim(s: &str) -> (r: String)
    ensures
        r@ == trim_s(s@),
{
    let cs = chars_of(s);
    let mut i: usize = 0;
    assert(cs@.skip(0) =~= cs@);
    while i < cs.len() && is_ws_exec(cs[i])
        invariant
            cs@ == s@,
            i <= cs@.len(),
            trim_start_s(s@) == trim_start_s(cs@.skip(i as int)),
        decreases cs@.len() - i,
    {
        assert(cs@.skip(i as int).skip(1) =~= cs@.skip(i + 1));
        i = i + 1;
    }
    assert(trim_start_s(cs@.skip(i as int)) == cs@.skip(i as int));
    let mut j: usize = cs.len();
    assert(cs@.subrange(i as int, j as int) =~= cs@.skip(i as int));
    while j > i && is_ws_exec(cs[j - 1])
        invariant
            cs@ == s@,
            i <= j <= cs@.len(),
            trim_s(s@) == trim_end_s(cs@.subrange(i as int, j as int)),
        decreases j - i,
    {
        assert(cs@.subrange(i as int, j as int).drop_last() =~= cs@.subrange(i as int, j - 1));
        j = j - 1;
    }
    string_of_range(&cs, i, j)
}

fn contains_str(v: &Vec<String>, s: &str) -> (r: bool)
    ensures
        r == v@.map_values(|x: String| x@).contains(s@),
{
    let ghost m = v@.map_values(|x: String| x@);
    for i in 0..v.len()
        invariant
            m == v@.map_values(|x: String| x@),
            forall|j: int| 0 <= j < i ==> m[j] != s@,
    {
        if str_eq(v[i].as_str(), s) {
            assert(m[i as int] == s@);
            return true;
        }
    }
    false
}

fn is_known_aria(a: &str) -> (r: bool)
    ensures
        r == known_aria_s().contains(a@),
{
    let known = known_aria();
    for i in 0..known.len()
        invariant
            known@.map_values(|x: &str| x@) == known_aria_s(),
            forall|j: int| 0 <= j < i ==> known_aria_s()[j] != a@,
    {
        if str_eq(known[i], a) {
            assert(known_aria_s()[i as int] == a@);
            return true;
        }
    }
    false
}

fn has_char(s: &str, c: char) -> (r: bool)
    ensures
        r == s@.contains(c),
{
    let cs = chars_of(s);
    for i in 0..cs.len()
        invariant
            cs@ == s@,
            forall|j: int| 0 <= j < i ==> cs@[j] != c,
    {
        if cs[i] == c {
            assert(s@[i as int] == c);
            return true;
        }
    }
    false
}

fn field_name_of(n: &str) -> (r: String)
    ensures
        r@ == field_name(n@),
{
    let cs = chars_of(n);
    let mut r = String::new();
    for i in 0..cs.len()
        invariant
            cs@ == n@,
            r@ == field_name(n@).take(i as int),
    {
        let c = cs[i];
        push_char(&mut r, if c == '-' || c == ':' { '_' } else { c });
        assert(r@ =~= field_name(n@).take(i + 1));
    }
    assert(field_name(n@).take(cs@.len() as int) =~= field_name(n@));
    r
}

/// The texts of tokens `from..` joined by spaces.
fn join_from(toks: &Vec<Tok>, from: usize) -> (r: String)
    requires
        from <= toks@.len(),
    ensures
        r@ == join_texts(toks_model(toks@).skip(from as int)),
{
    let ghost t = toks_model(toks@);
    let mut r = String::new();
    assert(t.subrange(from as int, from as int) =~= Seq::<TokModel>::empty());
    for i in from..toks.len()
        invariant
            t == toks_model(toks@),
            t.len() == toks@.len(),
            from <= i <= toks@.len(),
            r@ == join_texts(t.subrange(from as int, i as int)),
    {
        let x = toks[i].text();
        assert(t.subrange(from as int, i + 1).drop_last() =~= t.subrange(from as int, i as int));
        if i > from {
            r.append(" ");
        } else {
            assert(r@ =~= Seq::<char>::empty());
        }
        r.append(x.as_str());
        assert(r@ =~= join_texts(t.subrange(from as int, i + 1)));
    }
    assert(t.subrange(from as int, t.len() as int) =~= t.skip(from as int));
    r
}

/// The tokens of a flag passed as a prop.
fn flag_vec(b: bool) -> (r: Vec<Tok>)
    ensures
        toks_model(r@) == flag_toks(b),
{
    let s = if b { "true".to_string() } else { "false".to_string() };
    let r = vec![Tok::Ident(s)];
    assert(r@.drop_last() =~= Seq::<Tok>::empty());
    assert(toks_model(r@) =~= flag_toks(b));
    r
}

// ---------------------------------------------------------------------------
// Finishing a tag
// ---------------------------------------------------------------------------

/// What has been read of an opening tag.
struct TagParts {
    short: String,
    path: Vec<Tok>,
    attrs: Vec<(String, AttrVal)>,
    listeners: Vec<(String, Vec<Tok>)>,
    key: Option<Vec<Tok>>,
    seen: Vec<String>,
}

spec fn parts_model(x: TagParts) -> TagModel {
    TagModel {
        short: x.short@,
        path: toks_model(x.path@),
        attrs: attrs_m(x.attrs@),
        listeners: named_toks_m(x.listeners@),
        key: opt_toks(x.key),
        seen: x.seen@.map_values(|s: String| s@),
    }
}

fn finish(parts: TagParts, kids: Vec<HtmlNode>, self_closed: bool) -> (r: Result<HtmlNode, String>)
    ensures
        match finish_s(parts_model(parts), htmls_model(kids@), self_closed) {
            Ok(n) => r matches Ok(x) && x@ == n,
            Err(m) => r matches Err(x) && x@ == m,
        },
{
    let ghost st = parts_model(parts);
    let TagParts { short, path, attrs, listeners, key, seen: _ } = parts;
    let component = is_component_tag(short.as_str());
    if !component && !self_closed && crate::ssr::is_void_tag(short.as_str()) && kids.len() > 0 {
        let m = concat(&["<", short.as_str(), "> is a void element and cannot have children. Hint: use `<", short.as_str(), " … />`"]);
        proof {
            reveal_with_fuel(concat_s, 6);
        }
        assert(m@ =~= void_children_msg(short@));
        return Err(m);
    }
    if !component {
        return Ok(HtmlNode::Element(ElNode { tag: short, attrs, listeners, key, children: kids }));
    }
    let ghost am = attrs_m(attrs@);
    assert(am.take(0) =~= Seq::<(Seq<char>, AttrValModel)>::empty());
    for i in 0..attrs.len()
        invariant
            am == attrs_m(attrs@),
            first_bad_field(am.take(i as int)) is None,
            st.attrs == am,
            st.short == short@,
            st == parts_model(parts),
            component_tag(short@),
    {
        let n = &attrs[i].0;
        assert(am.take(i + 1).drop_last() =~= am.take(i as int));
        if has_char(n.as_str(), '-') || has_char(n.as_str(), ':') {
            let f = field_name_of(n.as_str());
            let m = concat(&["prop `", n.as_str(), "` on `<", short.as_str(), ">` is not a valid Rust field name. Hint: rename the prop to `", f.as_str(), "` (dashes become underscores)"]);
            proof {
                reveal_with_fuel(concat_s, 8);
            }
            assert(m@ =~= prop_name_msg(n@, short@));
            assert(am[i as int].0 == n@);
            assert(am.take(i + 1).last() == am[i as int]);
            assert(bad_field(n@));
            assert(first_bad_field(am.take(i + 1)) == Some(n@));
            assert(am.take(attrs@.len() as int) =~= am);
            proof {
                lemma_first_bad_field_prefix(am, i + 1);
            }
            return Err(m);
        }
    }
    assert(am.take(attrs@.len() as int) =~= am);
    let ghost lm = named_toks_m(listeners@);
    let mut props: Vec<(String, Vec<Tok>)> = Vec::new();
    for i in 0..attrs.len()
        invariant
            am == attrs_m(attrs@),
            props@.len() == i,
            forall|k: int| 0 <= k < i ==> named_toks_m(props@)[k] == attr_prop(#[trigger] am[k]),
    {
        let (n, v) = &attrs[i];
        let e = match v {
            AttrVal::Expr(e) => copy_toks(e),
            AttrVal::Bool(b) => flag_vec(*b),
        };
        props.push((n.clone(), e));
    }
    let na = attrs.len();
    for i in 0..listeners.len()
        invariant
            am == attrs_m(attrs@),
            lm == named_toks_m(listeners@),
            na == am.len(),
            props@.len() == na + i,
            forall|k: int| 0 <= k < na ==> named_toks_m(props@)[k] == attr_prop(#[trigger] am[k]),
            forall|k: int| 0 <= k < i ==> named_toks_m(props@)[na + k] == listener_prop(#[trigger] lm[k]),
    {
        let (ev, h) = &listeners[i];
        let nm = concat(&["on_", ev.as_str()]);
        proof {
            reveal_with_fuel(concat_s, 3);
        }
        assert(nm@ =~= "on_"@ + ev@);
        props.push((nm, copy_toks(h)));
    }
    assert(named_toks_m(props@) =~= am.map_values(|a: (Seq<char>, AttrValModel)| attr_prop(a))
        + lm.map_values(|l: (Seq<char>, Seq<TokModel>)| listener_prop(l)));
    Ok(HtmlNode::Component(CompNode { path, name: short, props, key, children: kids }))
}

/// An attribute list with no bad field in its first `i` entries and a bad
/// field at entry `i - 1` has that entry as its first bad field.
proof fn lemma_first_bad_field_prefix(a: Seq<(Seq<char>, AttrValModel)>, i: int)
    requires
        0 < i <= a.len(),
        first_bad_field(a.take(i)) is Some,
    ensures
        first_bad_field(a) == first_bad_field(a.take(i)),
    decreases a.len() - i,
{
    if i < a.len() {
        assert(a.take(i + 1).drop_last() =~= a.take(i));
        lemma_first_bad_field_prefix(a, i + 1);
    } else {
        assert(a.take(i) =~= a);
    }
}


// ---------------------------------------------------------------------------
// The parser
// ---------------------------------------------------------------------------

spec fn opt_str(s: Option<&str>) -> Option<Seq<char>> {
    match s {
        Some(x) => Some(x@),
        None => None,
    }
}

spec fn nodes_res(r: Result<(Vec<HtmlNode>, usize), String>) -> Result<(Seq<HtmlModel>, int), Seq<char>> {
    match r {
        Ok((v, q)) => Ok((htmls_model(v@), q as int)),
        Err(m) => Err(m@),
    }
}

spec fn node_res(r: Result<(HtmlNode, usize), String>) -> Result<(HtmlModel, int), Seq<char>> {
    match r {
        Ok((n, q)) => Ok((n@, q as int)),
        Err(m) => Err(m@),
    }
}

fn unclosed_missing(tag: &str) -> (r: String)
    ensures
        r@ == unclosed_missing_msg(tag@),
{
    let m = concat(&["unclosed tag `<", tag, ">`: missing `</", tag, ">`"]);
    proof {
        reveal_with_fuel(concat_s, 6);
    }
    assert(m@ =~= unclosed_missing_msg(tag@));
    m
}

fn starts_with_quote(l: &String) -> (r: bool)
    ensures
        r == (l@.len() > 0 && l@[0] == '"'),
{
    let cs = chars_of(l.as_str());
    cs.len() > 0 && cs[0] == '"'
}

/// Children from `p` up to a closing tag, or to the end of input where
/// `stop` is `None`.
fn parse_nodes(toks: &Vec<Tok>, p: usize, stop: Option<&str>) -> (r: Result<(Vec<HtmlNode>, usize), String>)
    requires
        p <= toks@.len(),
    ensures
        nodes_res(r) == nodes_s(toks_model(toks@), p as int, opt_str(stop), Seq::empty()),
        r matches Ok((_, q)) ==> p <= q <= toks@.len(),
    decreases toks@.len() - p, 2int,
{
    proof {
        lemma_toks_model_len(toks@);
        assert(toks@.len() == toks.len());
    }
    let ghost t = toks_model(toks@);
    let ghost sm = opt_str(stop);
    let mut out: Vec<HtmlNode> = Vec::new();
    let mut cur = p;
    assert(htmls_model(out@) =~= Seq::<HtmlModel>::empty());
    loop
        invariant
            t == toks_model(toks@),
            t.len() == toks@.len(),
            sm == opt_str(stop),
            p <= cur <= toks@.len(),
            toks@.len() == toks.len(),
            nodes_s(t, p as int, sm, Seq::empty()) == nodes_s(t, cur as int, sm, htmls_model(out@)),
        decreases toks@.len() - cur,
    {
        if cur >= toks.len() {
            match stop {
                Some(tag) => {
                    return Err(unclosed_missing(tag));
                },
                None => {
                    return Ok((out, cur));
                },
            }
        }
        if punct_is(toks, cur, '<') {
            if punct_is(toks, cur + 1, '/') {
                return Ok((out, cur));
            }
            match parse_element(toks, cur) {
                Err(e) => {
                    return Err(e);
                },
                Ok((n, q)) => {
                    proof {
                        lemma_htmls_push(out@, n);
                    }
                    out.push(n);
                    cur = q;
                },
            }
        } else {
            let quoted = match &toks[cur] {
                Tok::Literal(l) => starts_with_quote(l),
                _ => false,
            };
            if brace_is(toks, cur) {
                let e = match &toks[cur] {
                    Tok::Group(_, inner, _) => {
                        if inner.len() == 0 {
                            return Err("empty `{}` block is not a valid child. Hint: remove it or use `{html!{…}}`".to_string());
                        }
                        copy_toks(inner)
                    },
                    _ => Vec::new(),
                };
                let n = HtmlNode::Expr(e);
                proof {
                    lemma_htmls_push(out@, n);
                }
                out.push(n);
                cur = cur + 1;
            } else if quoted {
                let v = match &toks[cur] {
                    Tok::Literal(l) => parse_string_literal(l.as_str()),
                    _ => Err(String::new()),
                };
                match v {
                    Ok(v) => {
                        let n = HtmlNode::Text(v);
                        proof {
                            lemma_htmls_push(out@, n);
                        }
                        out.push(n);
                        cur = cur + 1;
                    },
                    Err(e) => {
                        let m = concat(&["invalid string literal child: ", e.as_str()]);
                        proof {
                            reveal_with_fuel(concat_s, 3);
                        }
                        assert(m@ =~= bad_literal_msg(e@));
                        return Err(m);
                    },
                }
            } else {
                proof {
                    lemma_run_end(t, cur as int);
                }
                let mut q = cur;
                let mut buf = String::new();
                while q < toks.len() && !punct_is(toks, q, '<') && !brace_is(toks, q)
                    invariant
                        t == toks_model(toks@),
                        t.len() == toks@.len(),
                        cur <= q <= toks@.len(),
                        buf@ == run_text_s(t, cur as int, q as int),
                        run_end_s(t, cur as int) == run_end_s(t, q as int),
                    decreases toks@.len() - q,
                {
                    let x = toks[q].text();
                    buf.append(x.as_str());
                    buf.append(" ");
                    q = q + 1;
                }
                let txt = trim(buf.as_str());
                if txt.as_str().unicode_len() > 0 {
                    let n = HtmlNode::Text(txt);
                    proof {
                        lemma_htmls_push(out@, n);
                    }
                    out.push(n);
                }
                cur = q;
            }
        }
    }
}

fn unclosed_open(tag: &str) -> (r: String)
    ensures
        r@ == unclosed_open_msg(tag@),
{
    let m = concat(&["unclosed tag `<", tag, ">`: expected `>` or `/>`"]);
    proof {
        reveal_with_fuel(concat_s, 4);
    }
    assert(m@ =~= unclosed_open_msg(tag@));
    m
}

/// An element, component or fragment at `p`, and the position after it.
#[verifier::spinoff_prover]
#[verifier::rlimit(40)]
fn parse_element(toks: &Vec<Tok>, p: usize) -> (r: Result<(HtmlNode, usize), String>)
    requires
        p <= toks@.len(),
    ensures
        node_res(r) == element_s(toks_model(toks@), p as int),
        r matches Ok((_, q)) ==> p < q <= toks@.len(),
    decreases toks@.len() - p, 1int,
{
    proof {
        lemma_toks_model_len(toks@);
        assert(toks@.len() == toks.len());
    }
    let ghost t = toks_model(toks@);
    match expect(toks, p, '<') {
        Err(e) => {
            return Err(e);
        },
        Ok(_) => {},
    }
    if punct_is(toks, p + 1, '>') {
        proof {
            reveal_strlit("");
        }
        assert(""@ =~= Seq::<char>::empty());
        let (kids, r) = match parse_nodes(toks, p + 2, Some("")) {
            Err(e) => {
                return Err(e);
            },
            Ok(x) => x,
        };
        let r1 = match expect(toks, r, '<') {
            Err(e) => {
                return Err(e);
            },
            Ok(x) => x,
        };
        let r2 = match expect(toks, r1, '/') {
            Err(e) => {
                return Err(e);
            },
            Ok(x) => x,
        };
        let r3 = match expect(toks, r2, '>') {
            Err(e) => {
                return Err(e);
            },
            Ok(x) => x,
        };
        return Ok((HtmlNode::Fragment(kids), r3));
    }
    let (short, q0) = match tag_name(toks, p + 1) {
        Err(e) => {
            return Err(e);
        },
        Ok(x) => x,
    };
    let path = copy_range(toks, p + 1, q0);
    let mut parts = TagParts {
        short,
        path,
        attrs: Vec::new(),
        listeners: Vec::new(),
        key: None,
        seen: Vec::new(),
    };
    assert(attrs_m(parts.attrs@) =~= Seq::empty());
    assert(named_toks_m(parts.listeners@) =~= Seq::empty());
    assert(parts.seen@.map_values(|s: String| s@) =~= Seq::empty());
    let mut q = q0;
    loop
        invariant
            t == toks_model(toks@),
            t.len() == toks@.len(),
            p < q <= toks@.len(),
            toks@.len() == toks.len(),
            element_s(t, p as int) == attrs_s(t, q as int, parts_model(parts)),
        decreases toks@.len() - q,
    {
        let ghost st = parts_model(parts);
        if punct_is(toks, q, '/') {
            let r = match expect(toks, q + 1, '>') {
                Err(e) => {
                    return Err(e);
                },
                Ok(x) => x,
            };
            let kids: Vec<HtmlNode> = Vec::new();
            assert(htmls_model(kids@) =~= Seq::<HtmlModel>::empty());
            return match finish(parts, kids, true) {
                Ok(n) => Ok((n, r)),
                Err(e) => Err(e),
            };
        }
        if punct_is(toks, q, '>') {
            return close_tag(toks, q + 1, parts);
        }
        if q >= toks.len() {
            return Err(unclosed_open(parts.short.as_str()));
        }
        let (a, q2) = match attr_name(toks, q) {
            Err(e) => {
                return Err(e);
            },
            Ok(x) => x,
        };
        if contains_str(&parts.seen, a.as_str()) {
            let m = concat(&["duplicate attribute `", a.as_str(), "` on `<", parts.short.as_str(), ">`. Hint: remove one occurrence"]);
            proof {
                reveal_with_fuel(concat_s, 6);
            }
            assert(m@ =~= duplicate_msg(a@, st.short));
            return Err(m);
        }
        if starts_with(a.as_str(), "aria") && a.as_str().unicode_len() > 4 && !is_known_aria(a.as_str()) {
            let m = match suggest_aria(a.as_str()) {
                Some(sg) => {
                    let m = concat(&["unknown ARIA attribute `", a.as_str(), "` on `<", parts.short.as_str(), ">`. Did you mean `", sg, "`? See https://www.w3.org/TR/wai-aria-1.2/"]);
                    proof {
                        reveal_with_fuel(concat_s, 8);
                    }
                    assert(m@ =~= aria_suggest_msg(a@, st.short, sg@));
                    m
                },
                None => {
                    let m = concat(&["unknown ARIA attribute `", a.as_str(), "` on `<", parts.short.as_str(), ">`. Expected a valid `aria-*` attribute or `role`; see https://www.w3.org/TR/wai-aria-1.2/"]);
                    proof {
                        reveal_with_fuel(concat_s, 6);
                    }
                    assert(m@ =~= aria_unknown_msg(a@, st.short));
                    m
                },
            };
            return Err(m);
        }
        parts.seen.push(a.clone());
        assert(parts.seen@.map_values(|s: String| s@) =~= st.seen.push(a@));
        if str_eq(a.as_str(), "key") {
            if !punct_is(toks, q2, '=') {
                return Err("`key` requires a value: use `key={expr}`. Hint: keys must be unique among siblings".to_string());
            }
            let (v, q3) = match attr_value(toks, q2 + 1) {
                Err(e) => {
                    return Err(e);
                },
                Ok(x) => x,
            };
            match v {
                AttrVal::Expr(e) => {
                    parts.key = Some(e);
                    q = q3;
                },
                AttrVal::Bool(_) => {
                    return Err("`key` must be a string/number expression, e.g. `key={item.id}`".to_string());
                },
            }
        } else {
            match normalize_event(a.as_str()) {
                Some(ev) => {
                    if !punct_is(toks, q2, '=') {
                        let m = concat(&["event binding `", a.as_str(), "` requires a handler: use `", a.as_str(), "={handler}`. Hint: handlers are delegated at the root, no per-node listener cost"]);
                        proof {
                            reveal_with_fuel(concat_s, 6);
                        }
                        assert(m@ =~= handler_missing_msg(a@));
                        return Err(m);
                    }
                    let (v, q3) = match attr_value(toks, q2 + 1) {
                        Err(e) => {
                            return Err(e);
                        },
                        Ok(x) => x,
                    };
                    match v {
                        AttrVal::Expr(e) => {
                            if e.len() == 0 {
                                let m = concat(&["empty handler for `", a.as_str(), "`. Hint: pass a closure or `Link::send` expression"]);
                                proof {
                                    reveal_with_fuel(concat_s, 4);
                                }
                                assert(m@ =~= handler_empty_msg(a@));
                                return Err(m);
                            }
                            let ghost l0 = named_toks_m(parts.listeners@);
                            let item = (ev, e);
                            parts.listeners.push(item);
                            assert(named_toks_m(parts.listeners@) =~= l0.push((item.0@, toks_model(item.1@))));
                            q = q3;
                        },
                        AttrVal::Bool(_) => {
                            let m = concat(&["event `", a.as_str(), "` value must be a Rust expression in braces, e.g. `", a.as_str(), "={on_click}`"]);
                            proof {
                                reveal_with_fuel(concat_s, 6);
                            }
                            assert(m@ =~= handler_expr_msg(a@));
                            return Err(m);
                        },
                    }
                },
                None => {
                    let ghost a0 = attrs_m(parts.attrs@);
                    if punct_is(toks, q2, '=') {
                        let (v, q3) = match attr_value(toks, q2 + 1) {
                            Err(e) => {
                                return Err(e);
                            },
                            Ok(x) => x,
                        };
                        let item = (a, v);
                        parts.attrs.push(item);
                        assert(attrs_m(parts.attrs@) =~= a0.push((item.0@, attrval_model(item.1))));
                        q = q3;
                    } else {
                        let item = (a, AttrVal::Bool(true));
                        parts.attrs.push(item);
                        assert(attrs_m(parts.attrs@) =~= a0.push((item.0@, attrval_model(item.1))));
                        q = q2;
                    }
                },
            }
        }
    }
}

/// The children of a tag from `q`, then its closing tag.
fn close_tag(toks: &Vec<Tok>, q: usize, parts: TagParts) -> (r: Result<(HtmlNode, usize), String>)
    requires
        q <= toks@.len(),
    ensures
        node_res(r) == close_s(toks_model(toks@), q as int, parts_model(parts)),
        r matches Ok((_, x)) ==> q < x <= toks@.len(),
    decreases toks@.len() - q, 3int,
{
    proof {
        lemma_toks_model_len(toks@);
        assert(toks@.len() == toks.len());
    }
    let ghost t = toks_model(toks@);
    let (kids, r) = match parse_nodes(toks, q, Some(parts.short.as_str())) {
        Err(e) => {
            return Err(e);
        },
        Ok(x) => x,
    };
    if !punct_is(toks, r, '<') || !punct_is(toks, r + 1, '/') {
        return Err(unclosed_missing(parts.short.as_str()));
    }
    let (c, r2) = match tag_name(toks, r + 2) {
        Err(e) => {
            return Err(e);
        },
        Ok(x) => x,
    };
    if !punct_is(toks, r2, '>') {
        let m = concat(&["expected `>` to close `</", c.as_str(), ">`"]);
        proof {
            reveal_with_fuel(concat_s, 4);
        }
        assert(m@ =~= close_gt_msg(c@));
        return Err(m);
    }
    if !str_eq(c.as_str(), parts.short.as_str()) {
        let m = concat(&["mismatched tags: opened `<", parts.short.as_str(), ">` but closed `</", c.as_str(), ">`. Hint: tags are case-sensitive"]);
        proof {
            reveal_with_fuel(concat_s, 6);
        }
        assert(m@ =~= mismatch_msg(parts.short@, c@));
        return Err(m);
    }
    match finish(parts, kids, false) {
        Ok(n) => Ok((n, r2 + 1)),
        Err(e) => Err(e),
    }
}

/// Parses the markup of `html!`: the nodes it describes, or the message of
/// the first error. Empty input and tokens left after the top-level nodes
/// (a stray closing tag) are errors.
pub fn parse_html(toks: &Vec<Tok>) -> (r: Result<Vec<HtmlNode>, String>)
    ensures
        match parse_html_s(toks_model(toks@)) {
            Ok(ns) => r matches Ok(v) && htmls_model(v@) == ns,
            Err(m) => r matches Err(x) && x@ == m,
        },
{
    proof {
        lemma_toks_model_len(toks@);
        assert(toks@.len() == toks.len());
    }
    if toks.len() == 0 {
        return Err("html! requires at least one node. Hint: use `html! { <div></div> }` or `html! { <>…</> }`".to_string());
    }
    let (nodes, p) = match parse_nodes(toks, 0, None) {
        Err(e) => {
            return Err(e);
        },
        Ok(x) => x,
    };
    if p < toks.len() {
        let rest = join_from(toks, p);
        let m = concat(&["unexpected trailing tokens `", rest.as_str(), "`. Hint: close all tags and wrap siblings in `<>…</>` if needed"]);
        proof {
            reveal_with_fuel(concat_s, 4);
        }
        assert(m@ =~= trailing_msg(rest@));
        return Err(m);
    }
    Ok(nodes)
}

} // verus!
