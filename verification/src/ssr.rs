//! Server-side rendering to HTML with hydration ids, and the check that a
//! client tree hydrates the HTML a server sent.
use vstd::prelude::*;
use vstd::string::StringExecFns;
use crate::model::{NodeModel, AttrModel, ValueModel, ElementModel, nodes_model, attrs_model, listeners_model};
use crate::vnode::{Attr, AttrValue, Element, VNode, push_escaped, escape_seq};
use vstd::utf8::encode_utf8;
use crate::error::HydrationError;
use vstd::utf8::encode_scalar;
use crate::strutil::{hex_char, debug_str, debug_repr, is_ws, is_ws_exec, push_char, push_decimal, push_int, decimal, int_decimal, str_eq, hex16, hex_digits, chars_of, string_of, string_of_range, sub_chars};

verus! {

broadcast use crate::model::lemma_nodes_model_len, crate::model::lemma_nodes_model_index;

/// What the HTML carries besides the tree itself.
#[derive(Debug, Clone)]
pub struct SsrOptions {
    /// `data-rwh="N"` on every element, numbered in pre-order.
    pub hydration_ids: bool,
    /// A `data-rwh-checksum` attribute on the root element.
    pub checksum: bool,
    /// `data-rwe-EVENT="HANDLER"` for every listener.
    pub event_markers: bool,
}

impl Default for SsrOptions {
    fn default() -> (r: Self)
        ensures
            r.hydration_ids && r.checksum && r.event_markers,
    {
        SsrOptions { hydration_ids: true, checksum: true, event_markers: true }
    }
}

// ---------------------------------------------------------------------------
// Specification of the rendering
// ---------------------------------------------------------------------------

/// Elements that have no closing tag.
pub open spec fn void_tag(t: Seq<char>) -> bool {
    ||| t == "area"@ || t == "base"@ || t == "br"@ || t == "col"@ || t == "embed"@
    ||| t == "hr"@ || t == "img"@ || t == "input"@ || t == "link"@ || t == "meta"@
    ||| t == "source"@ || t == "track"@ || t == "wbr"@
}

/// The HTML of one attribute: a string or an integer as a quoted value, a
/// true flag as the bare name, a false flag not at all.
pub open spec fn attr_html(a: AttrModel) -> Seq<char> {
    match a.value {
        ValueModel::Str(v) => " "@ + a.name + "=\""@ + escape_seq(v) + "\""@,
        ValueModel::Bool(b) => if b {
            " "@ + a.name
        } else {
            Seq::empty()
        },
        ValueModel::Int(i) => " "@ + a.name + "=\""@ + int_decimal(i as int) + "\""@,
    }
}

pub open spec fn attrs_html(s: Seq<AttrModel>) -> Seq<char>
    decreases s.len(),
{
    if s.len() == 0 {
        Seq::empty()
    } else {
        attrs_html(s.drop_last()) + attr_html(s.last())
    }
}

/// `data-rwe-EVENT="HANDLER"` markers of the listeners.
pub open spec fn listeners_html(s: Seq<(Seq<char>, Seq<char>)>) -> Seq<char>
    decreases s.len(),
{
    if s.len() == 0 {
        Seq::empty()
    } else {
        listeners_html(s.drop_last()) + " data-rwe-"@ + s.last().0 + "=\""@ + escape_seq(s.last().1)
            + "\""@
    }
}

/// The number of hydration ids rendering a tree uses: one per element, the
/// children of a void element not being rendered.
pub open spec fn elem_count(n: NodeModel) -> nat
    decreases n,
{
    match n {
        NodeModel::Element(e) => if void_tag(e.tag) {
            1
        } else {
            1 + elem_count_list(e.children)
        },
        NodeModel::Fragment(c) => elem_count_list(c),
        NodeModel::Component(c) => elem_count(*c.rendered),
        _ => 0,
    }
}

pub open spec fn elem_count_list(s: Seq<NodeModel>) -> nat
    decreases s,
{
    if s.len() == 0 {
        0
    } else {
        elem_count_list(s.drop_last()) + elem_count(s.last())
    }
}

/// The HTML of `n` when its first element gets hydration id `c`; elements are
/// numbered in pre-order.
pub open spec fn render_s(o: SsrOptions, n: NodeModel, c: nat) -> Seq<char>
    decreases n,
{
    match n {
        NodeModel::Text(t) => escape_seq(t),
        NodeModel::Empty => "<!---->"@,
        NodeModel::Fragment(s) => render_list_s(o, s, c),
        NodeModel::Component(cm) => "<!--rwc:"@ + escape_seq(cm.name) + "-->"@ + render_s(o, *cm.rendered, c)
            + "<!--/rwc-->"@,
        NodeModel::Element(e) => if void_tag(e.tag) {
            open_tag_s(o, e, c) + " />"@
        } else {
            open_tag_s(o, e, c) + ">"@ + render_list_s(o, e.children, c + 1) + "</"@ + e.tag + ">"@
        },
    }
}

/// The start of an element's opening tag, up to and without its `>`.
pub open spec fn open_tag_s(o: SsrOptions, e: ElementModel, c: nat) -> Seq<char> {
    "<"@ + e.tag + (if o.hydration_ids {
        " data-rwh=\""@ + decimal(c) + "\""@
    } else {
        Seq::empty()
    }) + attrs_html(e.attrs) + (if o.event_markers {
        listeners_html(e.listeners)
    } else {
        Seq::empty()
    })
}

/// The HTML of a list of siblings, the first element getting id `c`.
pub open spec fn render_list_s(o: SsrOptions, s: Seq<NodeModel>, c: nat) -> Seq<char>
    decreases s,
{
    if s.len() == 0 {
        Seq::empty()
    } else {
        render_list_s(o, s.drop_last(), c) + render_s(o, s.last(), c + elem_count_list(s.drop_last()))
    }
}

// ---------------------------------------------------------------------------
// Rendering
// ---------------------------------------------------------------------------

fn push_attr(out: &mut String, name: &String, value: &AttrValue)
    ensures
        final(out)@ == old(out)@ + attr_html(AttrModel { name: name@, value: value@ }),
{
    match value {
        AttrValue::String(v) => {
            out.append(" ");
            out.append(name.as_str());
            out.append("=\"");
            push_escaped(out, v.as_str());
            out.append("\"");
        },
        AttrValue::Bool(b) => {
            if *b {
                out.append(" ");
                out.append(name.as_str());
            }
        },
        AttrValue::Int(i) => {
            out.append(" ");
            out.append(name.as_str());
            out.append("=\"");
            push_int(out, *i);
            out.append("\"");
        },
    }
    assert(final(out)@ =~= old(out)@ + attr_html(AttrModel { name: name@, value: value@ }));
}

fn render_node(opts: &SsrOptions, node: &VNode, out: &mut String, counter: &mut u64)
    requires
        *old(counter) + elem_count(node@) <= u64::MAX,
    ensures
        final(out)@ == old(out)@ + render_s(*opts, node@, *old(counter) as nat),
        *final(counter) == *old(counter) + elem_count(node@),
    decreases node,
{
    let ghost start = out@;
    match node {
        VNode::Text(t) => {
            push_escaped(out, t.as_str());
        },
        VNode::Empty => {
            out.append("<!---->");
            assert(out@ =~= start + "<!---->"@);
        },
        VNode::Fragment(children) => {
            render_children(opts, children, out, counter);
        },
        VNode::Component(c) => {
            out.append("<!--rwc:");
            push_escaped(out, c.name.as_str());
            out.append("-->");
            render_node(opts, &c.rendered, out, counter);
            out.append("<!--/rwc-->");
            assert(out@ =~= start + render_s(*opts, node@, *old(counter) as nat));
        },
        VNode::Element(el) => {
            render_element(opts, el, out, counter);
        },
    }
}

fn push_attrs(out: &mut String, attrs: &Vec<Attr>)
    ensures
        final(out)@ == old(out)@ + attrs_html(attrs_model(attrs@)),
{
    let ghost start = out@;
    let ghost am = attrs_model(attrs@);
    for i in 0..attrs.len()
        invariant
            am == attrs_model(attrs@),
            out@ == start + attrs_html(am.take(i as int)),
    {
        push_attr(out, &attrs[i].name, &attrs[i].value);
        assert(am.take(i + 1).drop_last() =~= am.take(i as int));
        assert(out@ =~= start + attrs_html(am.take(i + 1)));
    }
    assert(am.take(am.len() as int) =~= am);
}

fn push_listener_markers(out: &mut String, ls: &Vec<(String, String)>)
    ensures
        final(out)@ == old(out)@ + listeners_html(listeners_model(ls@)),
{
    let ghost start = out@;
    let ghost lm = listeners_model(ls@);
    for i in 0..ls.len()
        invariant
            lm == listeners_model(ls@),
            out@ == start + listeners_html(lm.take(i as int)),
    {
        out.append(" data-rwe-");
        out.append(ls[i].0.as_str());
        out.append("=\"");
        push_escaped(out, ls[i].1.as_str());
        out.append("\"");
        assert(lm.take(i + 1).drop_last() =~= lm.take(i as int));
        assert(out@ =~= start + listeners_html(lm.take(i + 1)));
    }
    assert(lm.take(lm.len() as int) =~= lm);
}

fn push_open_tag(opts: &SsrOptions, el: &Element, id: u64, out: &mut String)
    ensures
        final(out)@ == old(out)@ + open_tag_s(*opts, el@, id as nat),
{
    let ghost start = out@;
    out.append("<");
    out.append(el.tag.as_str());
    if opts.hydration_ids {
        out.append(" data-rwh=\"");
        push_decimal(out, id);
        out.append("\"");
    }
    push_attrs(out, &el.attrs);
    if opts.event_markers {
        push_listener_markers(out, &el.listeners);
    }
    let ghost e = el@;
    assert(e.tag == el.tag@ && e.attrs == attrs_model(el.attrs@) && e.listeners == listeners_model(el.listeners@));
    assert(out@ =~= start + open_tag_s(*opts, el@, id as nat));
}

fn render_element(opts: &SsrOptions, el: &Element, out: &mut String, counter: &mut u64)
    requires
        *old(counter) + elem_count(NodeModel::Element(el@)) <= u64::MAX,
    ensures
        final(out)@ == old(out)@ + render_s(*opts, NodeModel::Element(el@), *old(counter) as nat),
        *final(counter) == *old(counter) + elem_count(NodeModel::Element(el@)),
    decreases el,
{
    let ghost start = out@;
    let id = *counter;
    *counter = *counter + 1;
    push_open_tag(opts, el, id, out);
    if is_void_tag(el.tag.as_str()) {
        out.append(" />");
        assert(out@ =~= start + render_s(*opts, NodeModel::Element(el@), id as nat));
        return;
    }
    out.append(">");
    render_children(opts, &el.children, out, counter);
    out.append("</");
    out.append(el.tag.as_str());
    out.append(">");
    assert(out@ =~= start + render_s(*opts, NodeModel::Element(el@), id as nat));
}

fn render_children(opts: &SsrOptions, children: &Vec<VNode>, out: &mut String, counter: &mut u64)
    requires
        *old(counter) + elem_count_list(nodes_model(children@)) <= u64::MAX,
    ensures
        final(out)@ == old(out)@ + render_list_s(*opts, nodes_model(children@), *old(counter) as nat),
        *final(counter) == *old(counter) + elem_count_list(nodes_model(children@)),
    decreases children,
{
    let ghost start = out@;
    let ghost c0 = *counter as nat;
    let ghost m = nodes_model(children@);
    for i in 0..children.len()
        invariant
            m == nodes_model(children@),
            c0 + elem_count_list(m) <= u64::MAX,
            *counter == c0 + elem_count_list(m.take(i as int)),
            out@ == start + render_list_s(*opts, m.take(i as int), c0),
    {
        assert(m.take(i + 1).drop_last() =~= m.take(i as int));
        proof {
            lemma_count_list_prefix(m, i + 1);
        }
        render_node(opts, &children[i], out, counter);
        assert(out@ =~= start + render_list_s(*opts, m.take(i + 1), c0));
    }
    assert(m.take(m.len() as int) =~= m);
}

proof fn lemma_count_list_prefix(s: Seq<NodeModel>, i: int)
    requires
        0 <= i <= s.len(),
    ensures
        elem_count_list(s.take(i)) <= elem_count_list(s),
    decreases s.len(),
{
    if i < s.len() {
        assert(s.drop_last().take(i) =~= s.take(i));
        lemma_count_list_prefix(s.drop_last(), i);
    } else {
        assert(s.take(i) =~= s);
    }
}

pub(crate) fn is_void_tag(t: &str) -> (r: bool)
    ensures
        r == void_tag(t@),
{
    str_eq(t, "area") || str_eq(t, "base") || str_eq(t, "br") || str_eq(t, "col") || str_eq(t, "embed")
        || str_eq(t, "hr") || str_eq(t, "img") || str_eq(t, "input") || str_eq(t, "link")
        || str_eq(t, "meta") || str_eq(t, "source") || str_eq(t, "track") || str_eq(t, "wbr")
}

// ---------------------------------------------------------------------------
// Checksum
// ---------------------------------------------------------------------------

/// One step of 64-bit FNV-1a.
pub open spec fn fnv_step(h: u64, b: u8) -> u64 {
    (((h ^ (b as u64)) as nat * 0x100000001b3nat) % 0x1_0000_0000_0000_0000nat) as u64
}

/// 64-bit FNV-1a of a byte sequence.
pub open spec fn fnv1a(bs: Seq<u8>) -> u64
    decreases bs.len(),
{
    if bs.len() == 0 {
        0xcbf29ce484222325u64
    } else {
        fnv_step(fnv1a(bs.drop_last()), bs.last())
    }
}

/// The checksum of a text: FNV-1a of its UTF-8 bytes as 16 lowercase hex digits.
pub open spec fn checksum_s(s: Seq<char>) -> Seq<char> {
    hex_digits(fnv1a(encode_utf8(s)) as nat, 16)
}

/// FNV-1a (64-bit) of the UTF-8 bytes of `html`, as 16 lowercase hex digits.
pub fn checksum(html: &str) -> (r: String)
    ensures
        r@ == checksum_s(html@),
{
    let bs = html.as_bytes();
    let mut h: u64 = 0xcbf29ce484222325;
    for i in 0..bs.len()
        invariant
            bs@ == encode_utf8(html@),
            h == fnv1a(bs@.take(i as int)),
    {
        assert(bs@.take(i + 1).drop_last() =~= bs@.take(i as int));
        h = (h ^ (bs[i] as u64)).wrapping_mul(0x100000001b3);
    }
    assert(bs@.take(bs@.len() as int) =~= bs@);
    hex16(h)
}

// ---------------------------------------------------------------------------
// Searching character sequences
// ---------------------------------------------------------------------------

pub open spec fn occurs_at(s: Seq<char>, p: Seq<char>, j: int) -> bool {
    0 <= j && j + p.len() <= s.len() && s.subrange(j, j + p.len()) == p
}

/// The first position at or after `i` where `p` occurs in `s`.
pub open spec fn find_from(s: Seq<char>, p: Seq<char>, i: int) -> Option<int>
    decreases s.len() + 1 - i,
{
    if i < 0 || i + p.len() > s.len() {
        None
    } else if occurs_at(s, p, i) {
        Some(i)
    } else {
        find_from(s, p, i + 1)
    }
}

/// The last position at or before `j` where `p` occurs in `s`.
pub open spec fn rfind_from(s: Seq<char>, p: Seq<char>, j: int) -> Option<int>
    decreases j + 1,
{
    if j < 0 {
        None
    } else if occurs_at(s, p, j) {
        Some(j)
    } else {
        rfind_from(s, p, j - 1)
    }
}

fn occurs_at_exec(s: &Vec<char>, p: &Vec<char>, j: usize) -> (r: bool)
    requires
        j + p@.len() <= s@.len(),
    ensures
        r == occurs_at(s@, p@, j as int),
{
    let sl = s.len();
    let mut k: usize = 0;
    while k < p.len()
        invariant
            sl == s@.len(),
            j + p@.len() <= s@.len(),
            k <= p@.len(),
            forall|m: int| 0 <= m < k ==> s@[j + m] == p@[m],
        decreases p@.len() - k,
    {
        if s[j + k] != p[k] {
            assert(s@.subrange(j as int, j + p@.len())[k as int] != p@[k as int]);
            return false;
        }
        k = k + 1;
    }
    assert(s@.subrange(j as int, j + p@.len()) =~= p@);
    true
}

fn find_exec(s: &Vec<char>, p: &Vec<char>, i: usize) -> (r: Option<usize>)
    requires
        i <= s@.len(),
    ensures
        match find_from(s@, p@, i as int) {
            Some(j) => r == Some(j as usize),
            None => r is None,
        },
{
    if p.len() > s.len() {
        return None;
    }
    let last = s.len() - p.len();
    if i > last {
        return None;
    }
    let mut j = i;
    loop
        invariant
            last + p@.len() == s@.len(),
            i <= j <= last,
            find_from(s@, p@, i as int) == find_from(s@, p@, j as int),
        decreases last - j,
    {
        if occurs_at_exec(s, p, j) {
            return Some(j);
        }
        if j >= last {
            assert(find_from(s@, p@, j + 1) is None);
            return None;
        }
        j = j + 1;
    }
}

fn rfind_exec(s: &Vec<char>, p: &Vec<char>, limit: usize) -> (r: Option<usize>)
    requires
        limit <= s@.len(),
    ensures
        match rfind_from(s@.take(limit as int), p@, limit - p@.len()) {
            Some(j) => r == Some(j as usize),
            None => r is None,
        },
{
    let ghost t = s@.take(limit as int);
    if p.len() > limit {
        return None;
    }
    let mut j = limit - p.len();
    loop
        invariant
            j + p@.len() <= limit <= s@.len(),
            t == s@.take(limit as int),
            rfind_from(t, p@, limit - p@.len()) == rfind_from(t, p@, j as int),
        decreases j,
    {
        if occurs_at_exec(s, p, j) {
            assert(t.subrange(j as int, j + p@.len()) =~= s@.subrange(j as int, j + p@.len()));
            return Some(j);
        }
        assert(t.subrange(j as int, j + p@.len()) =~= s@.subrange(j as int, j + p@.len()));
        if j == 0 {
            assert(rfind_from(t, p@, -1) is None);
            return None;
        }
        j = j - 1;
    }
}

fn one_char(c: char) -> (r: Vec<char>)
    ensures
        r@ == seq![c],
{
    let mut r: Vec<char> = Vec::new();
    r.push(c);
    assert(r@ =~= seq![c]);
    r
}

// ---------------------------------------------------------------------------
// Rendering to a string
// ---------------------------------------------------------------------------

/// The attribute the checksum is carried in, up to its opening quote.
pub open spec fn checksum_marker() -> Seq<char> {
    " data-rwh-checksum=\""@
}

pub open spec fn is_ascii_letter(c: char) -> bool {
    ('a' <= c && c <= 'z') || ('A' <= c && c <= 'Z')
}

/// When the HTML starts with an element (`<` and a letter), the checksum of
/// the whole text inserted as an attribute before the first `>`.
pub open spec fn with_checksum_s(s: Seq<char>) -> Seq<char> {
    if s.len() >= 2 && s[0] == '<' && is_ascii_letter(s[1]) {
        match find_from(s, seq!['>'], 0) {
            Some(j) => s.take(j) + checksum_marker() + checksum_s(s) + "\""@ + s.skip(j),
            None => s,
        }
    } else {
        s
    }
}

/// The full output of `render_to_string_with`.
pub open spec fn html_s(o: SsrOptions, n: NodeModel) -> Seq<char> {
    if o.checksum {
        with_checksum_s(render_s(o, n, 0))
    } else {
        render_s(o, n, 0)
    }
}

/// Renders `node` to HTML with the default options: hydration ids, the
/// root checksum and event markers.
pub fn render_to_string(node: &VNode) -> (r: String)
    requires
        elem_count(node@) <= u64::MAX,
    ensures
        r@ == html_s(SsrOptions { hydration_ids: true, checksum: true, event_markers: true }, node@),
{
    render_to_string_with(&SsrOptions::default(), node)
}

/// Renders `node` to HTML. Elements get `data-rwh` ids `0, 1, ...` in
/// pre-order; text and attribute values are escaped; void elements close
/// with ` />` and their children are not rendered; an empty node is
/// `<!---->` and a component is wrapped in `<!--rwc:NAME-->` and `<!--/rwc-->`.
pub fn render_to_string_with(opts: &SsrOptions, node: &VNode) -> (r: String)
    requires
        elem_count(node@) <= u64::MAX,
    ensures
        r@ == html_s(*opts, node@),
{
    let mut out = String::new();
    let mut counter: u64 = 0;
    render_node(opts, node, &mut out, &mut counter);
    assert(out@ =~= render_s(*opts, node@, 0));
    if opts.checksum {
        let cs = chars_of(out.as_str());
        if cs.len() >= 2 && cs[0] == '<' && (('a' <= cs[1] && cs[1] <= 'z') || ('A' <= cs[1] && cs[1] <= 'Z')) {
            let gt = one_char('>');
            match find_exec(&cs, &gt, 0) {
                Some(j) => {
                    proof {
                        lemma_find_from_range(cs@, gt@, 0);
                    }
                    let sum = checksum(out.as_str());
                    let mut r = string_of_range(&cs, 0, j);
                    r.append(" data-rwh-checksum=\"");
                    r.append(sum.as_str());
                    r.append("\"");
                    let tail = string_of_range(&cs, j, cs.len());
                    r.append(tail.as_str());
                    assert(cs@.subrange(0, j as int) =~= cs@.take(j as int));
                    assert(cs@.subrange(j as int, cs@.len() as int) =~= cs@.skip(j as int));
                    return r;
                },
                None => {},
            }
        }
    }
    out
}

// ---------------------------------------------------------------------------
// Hydration check
// ---------------------------------------------------------------------------

/// `s` with every `data-rwh-checksum="..."` attribute taken out. When a
/// marker has no closing quote, the text before it is followed by the whole
/// remaining text.
pub open spec fn strip_s(s: Seq<char>) -> Seq<char>
    decreases s.len(),
{
    match find_from(s, checksum_marker(), 0) {
        None => s,
        Some(pos) => {
            let after = s.skip(pos + checksum_marker().len());
            match find_from(after, seq!['"'], 0) {
                None => s.take(pos) + s,
                Some(e) => {
                    proof {
                        lemma_find_from_range(s, checksum_marker(), 0);
                        lemma_find_from_range(after, seq!['"'], 0);
                    }
                    s.take(pos) + strip_s(after.skip(e + 1))
                },
            }
        },
    }
}

pub proof fn lemma_find_from_range(s: Seq<char>, p: Seq<char>, i: int)
    ensures
        find_from(s, p, i) matches Some(j) ==> i <= j && occurs_at(s, p, j),
    decreases s.len() + 1 - i,
{
    if !(i < 0 || i + p.len() > s.len()) && !occurs_at(s, p, i) {
        lemma_find_from_range(s, p, i + 1);
    }
}

fn strip_checksum(html: &str) -> (r: String)
    ensures
        r@ == strip_s(html@),
{
    let mut out = String::new();
    let mut rest = chars_of(html);
    let mark = chars_of(" data-rwh-checksum=\"");
    let quote = one_char('"');
    loop
        invariant
            mark@ == checksum_marker(),
            quote@ == seq!['"'],
            out@ + strip_s(rest@) == strip_s(html@),
        decreases rest@.len(),
    {
        match find_exec(&rest, &mark, 0) {
            None => {
                let t = string_of(rest.as_slice());
                out.append(t.as_str());
                return out;
            },
            Some(pos) => {
                proof {
                    lemma_find_from_range(rest@, mark@, 0);
                }
                let rl = rest.len();
                let after = sub_chars(&rest, pos + mark.len(), rl);
                assert(after@ =~= rest@.skip(pos + checksum_marker().len()));
                let head = string_of_range(&rest, 0, pos);
                assert(head@ =~= rest@.take(pos as int));
                match find_exec(&after, &quote, 0) {
                    None => {
                        out.append(head.as_str());
                        let t = string_of(rest.as_slice());
                        out.append(t.as_str());
                        assert(out@ =~= strip_s(html@));
                        return out;
                    },
                    Some(e) => {
                        proof {
                            lemma_find_from_range(after@, quote@, 0);
                        }
                        out.append(head.as_str());
                        let next = sub_chars(&after, e + 1, after.len());
                        assert(next@ =~= after@.skip(e + 1));
                        proof {
                            assert(strip_s(rest@) == rest@.take(pos as int) + strip_s(next@));
                        }
                        rest = next;
                    },
                }
            },
        }
    }
}

/// The index of the first character where `a` and `b` differ at or after
/// `k`, or the length of the shorter one.
pub open spec fn first_diff_s(a: Seq<char>, b: Seq<char>, k: int) -> int
    decreases a.len() - k,
{
    if k < 0 || k >= a.len() || k >= b.len() || a[k] != b[k] {
        k
    } else {
        first_diff_s(a, b, k + 1)
    }
}

/// The UTF-8 byte offset of character index `k` in `s`.
pub open spec fn byte_off(s: Seq<char>, k: int) -> nat {
    encode_utf8(s.take(k)).len()
}

/// The index of the first byte where `x` and `y` differ at or after `i`, or
/// the length of the shorter one.
pub open spec fn first_diff_byte_s(x: Seq<u8>, y: Seq<u8>, i: int) -> int
    decreases x.len() - i,
{
    if i < 0 || i >= x.len() || i >= y.len() || x[i] != y[i] {
        i
    } else {
        first_diff_byte_s(x, y, i + 1)
    }
}

/// The hydration id of the last `data-rwh="..."` that starts before
/// character `k` of `a`.
pub open spec fn hid_before(a: Seq<char>, k: int) -> Option<Seq<char>> {
    let m = "data-rwh=\""@;
    match rfind_from(a.take(k), m, k - m.len()) {
        None => None,
        Some(p) => {
            let rest = a.skip(p + m.len());
            match find_from(rest, seq!['"'], 0) {
                Some(e) => Some(rest.take(e)),
                None => None,
            }
        },
    }
}

/// The first character index whose byte offset is at least `start`.
pub open spec fn first_at_or_after(s: Seq<char>, start: int, j: int) -> int
    decreases s.len() - j,
{
    if j >= s.len() || byte_off(s, j) >= start {
        j
    } else {
        first_at_or_after(s, start, j + 1)
    }
}

/// The last character index whose byte offset is at most `end`.
pub open spec fn last_at_or_before(s: Seq<char>, end: int, j: int) -> int
    decreases j,
{
    if j <= 0 || byte_off(s, j) <= end {
        j
    } else {
        last_at_or_before(s, end, j - 1)
    }
}

/// The whole characters within 40 bytes either side of byte `byte`.
pub open spec fn context_s(s: Seq<char>, byte: int) -> Seq<char> {
    let start = if byte >= 40 {
        byte - 40
    } else {
        0
    };
    let total = byte_off(s, s.len() as int);
    let end = if byte + 40 < total {
        byte + 40
    } else {
        total as int
    };
    let a = first_at_or_after(s, start, 0);
    let b = last_at_or_before(s, end, s.len() as int);
    s.subrange(if a < b {
        a
    } else {
        b
    }, b)
}

/// After leading whitespace, `s` starts with `<`.
pub open spec fn starts_tag_from(s: Seq<char>, j: int) -> bool
    decreases s.len() - j,
{
    if j < 0 || j >= s.len() {
        false
    } else if is_ws(s[j]) {
        starts_tag_from(s, j + 1)
    } else {
        s[j] == '<'
    }
}

/// `e` is the error `verify_hydration_with` reports when the normalised
/// server HTML `a` differs from the client's rendering `b`.
pub open spec fn hydration_error_s(e: HydrationError, a: Seq<char>, b: Seq<char>) -> bool {
    let k = first_diff_s(a, b, 0);
    let byte = first_diff_byte_s(encode_utf8(a), encode_utf8(b), 0) as nat;
    let hid = match hid_before(a, k) {
        Some(h) => h,
        None => "?"@,
    };
    let sctx = context_s(a, byte as int);
    let cctx = context_s(b, byte as int);
    if starts_tag_from(sctx, 0) || starts_tag_from(cctx, 0) {
        e matches HydrationError::Structure { hid: h, message } && h@ == hid && message@ == "HTML diverges at byte "@
            + decimal(byte) + " (hid "@ + hid + "): server "@ + debug_repr(sctx) + " vs client "@ + debug_repr(cctx)
    } else {
        e matches HydrationError::TextMismatch { hid: h, server, client } && h@ == hid && server@ == sctx
            && client@ == cctx
    }
}

fn first_diff_index(a: &Vec<char>, b: &Vec<char>) -> (k: usize)
    ensures
        k == first_diff_s(a@, b@, 0),
{
    let mut k: usize = 0;
    while k < a.len() && k < b.len() && a[k] == b[k]
        invariant
            k <= a@.len(),
            first_diff_s(a@, b@, 0) == first_diff_s(a@, b@, k as int),
        decreases a@.len() - k,
    {
        k = k + 1;
    }
    k
}

proof fn lemma_encode_concat(a: Seq<char>, b: Seq<char>)
    ensures
        encode_utf8(a + b) == encode_utf8(a) + encode_utf8(b),
    decreases a.len(),
{
    if a.len() == 0 {
        assert(a + b =~= b);
        assert(encode_utf8(a) =~= Seq::<u8>::empty());
        assert(encode_utf8(a) + encode_utf8(b) =~= encode_utf8(b));
    } else {
        assert((a + b).drop_first() =~= a.drop_first() + b);
        lemma_encode_concat(a.drop_first(), b);
        assert(encode_utf8(a + b) =~= encode_utf8(a) + encode_utf8(b));
    }
}

proof fn lemma_byte_off_step(s: Seq<char>, j: int)
    requires
        0 <= j < s.len(),
    ensures
        byte_off(s, j + 1) == byte_off(s, j) + encode_scalar(s[j] as u32).len(),
{
    assert(s.take(j + 1) =~= s.take(j) + seq![s[j]]);
    lemma_encode_concat(s.take(j), seq![s[j]]);
    let one = seq![s[j]];
    assert(one.drop_first() =~= Seq::<char>::empty());
    assert(encode_utf8(Seq::<char>::empty()) =~= Seq::<u8>::empty());
    assert(one[0] == s[j]);
    assert(encode_utf8(one) == encode_scalar(one[0] as u32) + encode_utf8(one.drop_first()));
    assert(encode_utf8(one) =~= encode_scalar(s[j] as u32));
}

proof fn lemma_byte_off_mono(s: Seq<char>, i: int, j: int)
    requires
        0 <= i <= j <= s.len(),
    ensures
        byte_off(s, i) <= byte_off(s, j),
    decreases j - i,
{
    if i < j {
        lemma_byte_off_step(s, j - 1);
        lemma_byte_off_mono(s, i, j - 1);
    }
}

/// The number of UTF-8 bytes of a character.
fn utf8_width(c: char) -> (w: usize)
    ensures
        w == encode_scalar(c as u32).len(),
{
    broadcast use vstd::utf8::char_is_scalar;
    let v = c as u32;
    if v < 0x80 {
        1
    } else if v < 0x800 {
        2
    } else if v < 0x10000 {
        3
    } else {
        4
    }
}

/// The byte offset of every character index, and of the end.
fn byte_offsets(s: &Vec<char>, total: usize) -> (r: Vec<usize>)
    requires
        total == byte_off(s@, s@.len() as int),
    ensures
        r@.len() == s@.len() + 1,
        forall|j: int| 0 <= j <= s@.len() ==> r@[j] == byte_off(s@, j),
{
    let mut r: Vec<usize> = Vec::new();
    let mut acc: usize = 0;
    r.push(0);
    assert(s@.take(0) =~= Seq::<char>::empty());
    for i in 0..s.len()
        invariant
            total == byte_off(s@, s@.len() as int),
            r@.len() == i + 1,
            acc == byte_off(s@, i as int),
            forall|j: int| 0 <= j <= i ==> r@[j] == byte_off(s@, j),
    {
        proof {
            lemma_byte_off_step(s@, i as int);
            lemma_byte_off_mono(s@, i + 1, s@.len() as int);
        }
        acc = acc + utf8_width(s[i]);
        r.push(acc);
    }
    r
}

fn hid_of(a: &Vec<char>, k: usize) -> (r: Option<String>)
    requires
        k <= a@.len(),
    ensures
        match hid_before(a@, k as int) {
            Some(h) => r matches Some(x) && x@ == h,
            None => r is None,
        },
{
    let m = chars_of("data-rwh=\"");
    match rfind_exec(a, &m, k) {
        None => None,
        Some(p) => {
            proof {
                lemma_rfind_range(a@.take(k as int), m@, k - m@.len());
            }
            let al = a.len();
            let rest = sub_chars(a, p + m.len(), al);
            assert(rest@ =~= a@.skip(p + m@.len()));
            let quote = one_char('"');
            match find_exec(&rest, &quote, 0) {
                Some(e) => {
                    proof {
                        lemma_find_from_range(rest@, quote@, 0);
                    }
                    let h = string_of_range(&rest, 0, e);
                    assert(h@ =~= rest@.take(e as int));
                    Some(h)
                },
                None => None,
            }
        },
    }
}

proof fn lemma_rfind_range(s: Seq<char>, p: Seq<char>, j: int)
    ensures
        rfind_from(s, p, j) matches Some(i) ==> i <= j && occurs_at(s, p, i),
    decreases j + 1,
{
    if j >= 0 && !occurs_at(s, p, j) {
        lemma_rfind_range(s, p, j - 1);
    }
}

fn context_around(s: &Vec<char>, offs: &Vec<usize>, byte: usize) -> (r: String)
    requires
        offs@.len() == s@.len() + 1,
        forall|j: int| 0 <= j <= s@.len() ==> offs@[j] == byte_off(s@, j),
        byte <= byte_off(s@, s@.len() as int),
    ensures
        r@ == context_s(s@, byte as int),
{
    let n = s.len();
    let total = offs[n];
    let start = if byte >= 40 {
        byte - 40
    } else {
        0
    };
    let end = if total - byte > 40 {
        byte + 40
    } else {
        total
    };
    let mut a: usize = 0;
    while a < n && offs[a] < start
        invariant
            a <= n == s@.len(),
            offs@.len() == s@.len() + 1,
            forall|j: int| 0 <= j <= s@.len() ==> offs@[j] == byte_off(s@, j),
            first_at_or_after(s@, start as int, 0) == first_at_or_after(s@, start as int, a as int),
        decreases n - a,
    {
        a = a + 1;
    }
    let mut b: usize = n;
    while b > 0 && offs[b] > end
        invariant
            b <= n == s@.len(),
            offs@.len() == s@.len() + 1,
            forall|j: int| 0 <= j <= s@.len() ==> offs@[j] == byte_off(s@, j),
            last_at_or_before(s@, end as int, s@.len() as int) == last_at_or_before(s@, end as int, b as int),
        decreases b,
    {
        b = b - 1;
    }
    let lo = if a < b {
        a
    } else {
        b
    };
    string_of_range(s, lo, b)
}

fn starts_tag(s: &Vec<char>) -> (r: bool)
    ensures
        r == starts_tag_from(s@, 0),
{
    let mut j: usize = 0;
    while j < s.len() && is_ws_exec(s[j])
        invariant
            j <= s@.len(),
            starts_tag_from(s@, 0) == starts_tag_from(s@, j as int),
        decreases s@.len() - j,
    {
        j = j + 1;
    }
    j < s.len() && s[j] == '<'
}

/// Checks that `client` hydrates `server_html`: the client tree is rendered
/// with `opts` but without a checksum, checksum attributes are taken out of
/// the server HTML, and the two texts must be equal. Otherwise the error
/// locates the first difference: its byte offset, the hydration id of the
/// last element opened before it, and the text around it on either side; it
/// is a `Structure` error when either side continues with a tag there, and a
/// `TextMismatch` otherwise.
pub fn verify_hydration_with(opts: &SsrOptions, server_html: &str, client: &VNode) -> (r: Result<(), HydrationError>)
    requires
        elem_count(client@) <= u64::MAX,
    ensures
        ({
            let a = strip_s(server_html@);
            let b = render_s(SsrOptions { checksum: false, ..*opts }, client@, 0);
            if a == b {
                r is Ok
            } else {
                r matches Err(e) && hydration_error_s(e, a, b)
            }
        }),
{
    let no_sum = SsrOptions { hydration_ids: opts.hydration_ids, checksum: false, event_markers: opts.event_markers };
    let expected = render_to_string_with(&no_sum, client);
    let server_norm = strip_checksum(server_html);
    if str_eq(server_norm.as_str(), expected.as_str()) {
        return Ok(());
    }
    let a = chars_of(server_norm.as_str());
    let b = chars_of(expected.as_str());
    let a_total = server_norm.as_str().as_bytes().len();
    let b_total = expected.as_str().as_bytes().len();
    proof {
        assert(a@.take(a@.len() as int) =~= a@);
        assert(b@.take(b@.len() as int) =~= b@);
    }
    let a_offs = byte_offsets(&a, a_total);
    let b_offs = byte_offsets(&b, b_total);
    let k = first_diff_index(&a, &b);
    proof {
        lemma_first_diff_range(a@, b@, 0);
        assert(a@.take(0) =~= b@.take(0));
        lemma_first_diff_common(a@, b@, 0);
        lemma_byte_off_mono(a@, k as int, a@.len() as int);
        lemma_common_prefix_off(a@, b@, k as int);
        lemma_byte_off_mono(b@, k as int, b@.len() as int);
    }
    let ab = server_norm.as_str().as_bytes();
    let bb = expected.as_str().as_bytes();
    let mut byte: usize = 0;
    while byte < ab.len() && byte < bb.len() && ab[byte] == bb[byte]
        invariant
            byte <= ab@.len(),
            byte <= bb@.len(),
            first_diff_byte_s(ab@, bb@, 0) == first_diff_byte_s(ab@, bb@, byte as int),
        decreases ab@.len() - byte,
    {
        byte = byte + 1;
    }
    assert(ab@ == encode_utf8(a@));
    assert(bb@ == encode_utf8(b@));
    let hid = hid_of(&a, k);
    let server_ctx = context_around(&a, &a_offs, byte);
    let client_ctx = context_around(&b, &b_offs, byte);
    let hid_str = match hid {
        Some(h) => h,
        None => "?".to_owned(),
    };
    if starts_tag(&chars_of(server_ctx.as_str())) || starts_tag(&chars_of(client_ctx.as_str())) {
        let mut message = String::new();
        message.append("HTML diverges at byte ");
        push_decimal(&mut message, byte as u64);
        message.append(" (hid ");
        message.append(hid_str.as_str());
        message.append("): server ");
        message.append(debug_str(server_ctx.as_str()).as_str());
        message.append(" vs client ");
        message.append(debug_str(client_ctx.as_str()).as_str());
        return Err(HydrationError::Structure { hid: hid_str, message });
    }
    Err(HydrationError::TextMismatch { hid: hid_str, server: server_ctx, client: client_ctx })
}

proof fn lemma_first_diff_range(a: Seq<char>, b: Seq<char>, k: int)
    requires
        0 <= k <= a.len(),
        k <= b.len(),
    ensures
        k <= first_diff_s(a, b, k) <= a.len(),
        first_diff_s(a, b, k) <= b.len(),
    decreases a.len() - k,
{
    if k < a.len() && k < b.len() && a[k] == b[k] {
        lemma_first_diff_range(a, b, k + 1);
    }
}

proof fn lemma_first_diff_common(a: Seq<char>, b: Seq<char>, k: int)
    requires
        0 <= k <= a.len(),
        k <= b.len(),
        a.take(k) == b.take(k),
    ensures
        a.take(first_diff_s(a, b, k)) == b.take(first_diff_s(a, b, k)),
    decreases a.len() - k,
{
    if k < a.len() && k < b.len() && a[k] == b[k] {
        assert(a.take(k + 1) =~= a.take(k).push(a[k]));
        assert(b.take(k + 1) =~= b.take(k).push(b[k]));
        lemma_first_diff_common(a, b, k + 1);
    }
}

proof fn lemma_common_prefix_off(a: Seq<char>, b: Seq<char>, k: int)
    requires
        0 <= k <= a.len(),
        k <= b.len(),
        a.take(k) == b.take(k),
    ensures
        byte_off(a, k) == byte_off(b, k),
{
}

/// `verify_hydration_with` with the default options and no checksum.
pub fn verify_hydration(server_html: &str, client: &VNode) -> (r: Result<(), HydrationError>)
    requires
        elem_count(client@) <= u64::MAX,
    ensures
        ({
            let a = strip_s(server_html@);
            let b = render_s(SsrOptions { hydration_ids: true, checksum: false, event_markers: true }, client@, 0);
            if a == b {
                r is Ok
            } else {
                r matches Err(e) && hydration_error_s(e, a, b)
            }
        }),
{
    let opts = SsrOptions { hydration_ids: true, checksum: false, event_markers: true };
    verify_hydration_with(&opts, server_html, client)
}

// ---------------------------------------------------------------------------
// Hydrating the server's own HTML
// ---------------------------------------------------------------------------

/// `render_s` does not read the checksum option.
pub proof fn lemma_render_ignores_checksum(o: SsrOptions, n: NodeModel, c: nat)
    ensures
        render_s(o, n, c) == render_s(SsrOptions { checksum: false, ..o }, n, c),
    decreases n,
{
    let o2 = SsrOptions { checksum: false, ..o };
    match n {
        NodeModel::Fragment(s) => lemma_render_list_ignores_checksum(o, s, c),
        NodeModel::Component(cm) => lemma_render_ignores_checksum(o, *cm.rendered, c),
        NodeModel::Element(e) => {
            lemma_render_list_ignores_checksum(o, e.children, c + 1);
            assert(open_tag_s(o, e, c) == open_tag_s(o2, e, c));
        },
        _ => {},
    }
}

pub proof fn lemma_render_list_ignores_checksum(o: SsrOptions, s: Seq<NodeModel>, c: nat)
    ensures
        render_list_s(o, s, c) == render_list_s(SsrOptions { checksum: false, ..o }, s, c),
    decreases s,
{
    if s.len() > 0 {
        lemma_render_list_ignores_checksum(o, s.drop_last(), c);
        lemma_render_ignores_checksum(o, s.last(), c + elem_count_list(s.drop_last()));
    }
}

pub proof fn lemma_find_none(s: Seq<char>, p: Seq<char>, i: int)
    requires
        0 <= i,
        forall|k: int| i <= k ==> !occurs_at(s, p, k),
    ensures
        find_from(s, p, i) is None,
    decreases s.len() + 1 - i,
{
    if !(i + p.len() > s.len()) {
        lemma_find_none(s, p, i + 1);
    }
}

pub proof fn lemma_find_none_all(s: Seq<char>, p: Seq<char>, i: int, k: int)
    requires
        0 <= i <= k,
        find_from(s, p, i) is None,
    ensures
        !occurs_at(s, p, k),
    decreases k - i,
{
    if i < k && !(i + p.len() > s.len()) {
        lemma_find_none_all(s, p, i + 1, k);
    }
}

pub proof fn lemma_find_first(s: Seq<char>, p: Seq<char>, i: int, j: int)
    requires
        0 <= i <= j,
        occurs_at(s, p, j),
        forall|k: int| i <= k < j ==> !occurs_at(s, p, k),
    ensures
        find_from(s, p, i) == Some(j),
    decreases j - i,
{
    if i < j {
        lemma_find_first(s, p, i + 1, j);
    }
}

proof fn lemma_hex_no_quote(n: nat, k: nat)
    ensures
        forall|i: int| 0 <= i < hex_digits(n, k).len() ==> hex_digits(n, k)[i] != '"',
        hex_digits(n, k).len() == k,
    decreases k,
{
    if k > 0 {
        lemma_hex_no_quote(n / 16, (k - 1) as nat);
        let d = (n % 16) as int;
        assert(hex_char(d) != '"') by {
            if d < 10 {
                assert(((48 + d) as u8) as char != '"');
            } else {
                assert(((87 + d) as u8) as char != '"');
            }
        }
    }
}

/// Rendering a tree to HTML, with or without the checksum, and checking
/// that the same tree hydrates it, succeeds: the server's own HTML, its
/// checksum taken out, is what the client renders. This holds unless the
/// rendering itself contains the text ` data-rwh-checksum="` (which only
/// names the framework does not escape, such as an attribute so named, can
/// put there).
#[verifier::spinoff_prover]
#[verifier::rlimit(50)]
pub proof fn law_render_then_hydrate(o: SsrOptions, n: NodeModel)
    requires
        find_from(render_s(o, n, 0), checksum_marker(), 0) is None,
    ensures
        strip_s(html_s(o, n)) == render_s(SsrOptions { checksum: false, ..o }, n, 0),
{
    let r = render_s(o, n, 0);
    let m = checksum_marker();
    lemma_render_ignores_checksum(o, n, 0);
    reveal_strlit(" data-rwh-checksum=\"");
    reveal_strlit("\"");
    assert(m.len() == 20);
    let h = html_s(o, n);
    if h == r {
        assert(strip_s(h) == r);
    } else {
        let j = find_from(r, seq!['>'], 0)->0;
        lemma_find_from_range(r, seq!['>'], 0);
        let cs = checksum_s(r);
        lemma_hex_no_quote(fnv1a(encode_utf8(r)) as nat, 16);
        assert(cs.len() == 16);
        assert(h == r.take(j) + m + cs + "\""@ + r.skip(j));
        // the first marker in the HTML is the inserted one
        assert(occurs_at(h, m, j)) by {
            assert(h.subrange(j, j + 20) =~= m);
        }
        assert forall|k: int| 0 <= k < j implies !occurs_at(h, m, k) by {
            if occurs_at(h, m, k) {
                if k + 20 <= j {
                    assert(h.subrange(k, k + 20) =~= r.subrange(k, k + 20));
                    lemma_find_none_all(r, m, 0, k);
                } else {
                    let d = j - k;
                    assert(h[j] == m[d]);
                    assert(h[j] == m[0]);
                }
            }
        }
        lemma_find_first(h, m, 0, j);
        let after = h.skip(j + 20);
        assert(after =~= cs + "\""@ + r.skip(j));
        assert(after[16] == '"');
        assert forall|k: int| 0 <= k < 16 implies after[k] != '"' by {
            assert(after[k] == cs[k]);
        }
        assert(occurs_at(after, seq!['"'], 16)) by {
            assert(after.subrange(16, 17) =~= seq!['"']);
        }
        assert forall|k: int| 0 <= k < 16 implies !occurs_at(after, seq!['"'], k) by {
            if occurs_at(after, seq!['"'], k) {
                assert(after.subrange(k, k + 1)[0] == after[k]);
            }
        }
        lemma_find_first(after, seq!['"'], 0, 16);
        let rest = after.skip(17);
        assert(rest =~= r.skip(j));
        assert forall|k: int| 0 <= k implies !occurs_at(rest, m, k) by {
            if occurs_at(rest, m, k) {
                assert(rest.subrange(k, k + 20) =~= r.subrange(j + k, j + k + 20));
                lemma_find_none_all(r, m, 0, j + k);
            }
        }
        lemma_find_none(rest, m, 0);
        assert(strip_s(rest) == rest);
        assert(h.take(j) =~= r.take(j));
        assert(strip_s(h) == h.take(j) + strip_s(rest));
        assert(r.take(j) + r.skip(j) =~= r);
    }
    lemma_first_diff_equal(strip_s(h), 0);
}

proof fn lemma_first_diff_equal(a: Seq<char>, k: int)
    requires
        0 <= k <= a.len(),
    ensures
        first_diff_s(a, a, k) == a.len(),
    decreases a.len() - k,
{
    if k < a.len() {
        lemma_first_diff_equal(a, k + 1);
    }
}

// ---------------------------------------------------------------------------
// Flags set to false
// ---------------------------------------------------------------------------

/// The attributes of `s`, in order, without those whose value is the flag
/// `false`.
pub open spec fn without_false_flags(s: Seq<AttrModel>) -> Seq<AttrModel>
    decreases s.len(),
{
    if s.len() == 0 {
        s
    } else {
        let rest = without_false_flags(s.drop_last());
        if s.last().value == ValueModel::Bool(false) {
            rest
        } else {
            rest.push(s.last())
        }
    }
}

proof fn lemma_attrs_without_false(s: Seq<AttrModel>)
    ensures
        attrs_html(without_false_flags(s)) == attrs_html(s),
    decreases s.len(),
{
    if s.len() > 0 {
        lemma_attrs_without_false(s.drop_last());
        let rest = without_false_flags(s.drop_last());
        if s.last().value == ValueModel::Bool(false) {
            assert(attrs_html(s) =~= attrs_html(s.drop_last()));
        } else {
            assert(rest.push(s.last()).drop_last() =~= rest);
        }
    }
}

/// A flag attribute set to `false` is not rendered at all: an element, with
/// any options and any first hydration id, renders exactly as it does with
/// its `false` flags left out, and so does the whole page (checksum
/// included) whose root it is.
pub proof fn law_false_flags_not_rendered(o: SsrOptions, e: ElementModel, c: nat)
    ensures
        render_s(o, NodeModel::Element(e), c) == render_s(
            o,
            NodeModel::Element(ElementModel { attrs: without_false_flags(e.attrs), ..e }),
            c,
        ),
        html_s(o, NodeModel::Element(e)) == html_s(
            o,
            NodeModel::Element(ElementModel { attrs: without_false_flags(e.attrs), ..e }),
        ),
{
    lemma_attrs_without_false(e.attrs);
    let f = ElementModel { attrs: without_false_flags(e.attrs), ..e };
    assert(open_tag_s(o, e, c) == open_tag_s(o, f, c));
    assert(open_tag_s(o, e, 0) == open_tag_s(o, f, 0));
}

} // verus!
