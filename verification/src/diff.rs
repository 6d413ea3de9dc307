//! Keyed diffing of virtual DOM trees into patches.
use vstd::prelude::*;
use crate::model::{NodeModel, AttrModel, ElementModel, nodes_model, attrs_model, listeners_model};
use crate::patch::{Patch, PatchModel, patches_model};
use crate::vnode::{key_of, Element, VNode, attrs_eq, node_eq, opt_str_eq};
use crate::strutil::str_eq;

verus! {

broadcast use crate::model::lemma_nodes_model_len, crate::model::lemma_nodes_model_index;

// ---------------------------------------------------------------------------
// Specification of the diff
// ---------------------------------------------------------------------------

/// The key of a node, or the empty text when it has none.
pub open spec fn key_or_empty(n: NodeModel) -> Seq<char> {
    match key_of(n) {
        Some(k) => k,
        None => Seq::empty(),
    }
}

/// Every node of the list carries a key.
pub open spec fn all_keyed(s: Seq<NodeModel>) -> bool {
    forall|i: int| 0 <= i < s.len() ==> (#[trigger] key_of(s[i])) is Some
}

/// The first index at or after `i` whose node has key `k`, or -1.
pub open spec fn first_key_from(s: Seq<NodeModel>, k: Seq<char>, i: int) -> int
    decreases s.len() - i,
{
    if i < 0 || i >= s.len() {
        -1
    } else if key_of(s[i]) == Some(k) {
        i
    } else {
        first_key_from(s, k, i + 1)
    }
}

/// The first index whose node has key `k`, or -1.
pub open spec fn first_key(s: Seq<NodeModel>, k: Seq<char>) -> int {
    first_key_from(s, k, 0)
}

/// Some node before index `j` has key `k`.
pub open spec fn key_seen_before(s: Seq<NodeModel>, k: Seq<char>, j: int) -> bool {
    exists|t: int| 0 <= t < j && key_of(s[t]) == Some(k)
}

/// The new child at `j` is matched with an old child: it has a key that is the
/// first of its kind among the new children and that some old child has.
pub open spec fn new_matched(os: Seq<NodeModel>, ns: Seq<NodeModel>, j: int) -> bool {
    &&& key_of(ns[j]) is Some
    &&& !key_seen_before(ns, key_or_empty(ns[j]), j)
    &&& first_key(os, key_or_empty(ns[j])) >= 0
}

/// The old child matched with the new child at `j`.
pub open spec fn partner(os: Seq<NodeModel>, ns: Seq<NodeModel>, j: int) -> int {
    first_key(os, key_or_empty(ns[j]))
}

/// The old child at `i` is matched with some new child.
pub open spec fn old_matched(os: Seq<NodeModel>, ns: Seq<NodeModel>, i: int) -> bool {
    exists|t: int| 0 <= t < ns.len() && new_matched(os, ns, t) && partner(os, ns, t) == i
}

/// The new indices below `j` whose child is matched, in order.
pub open spec fn matched_news(os: Seq<NodeModel>, ns: Seq<NodeModel>, j: int) -> Seq<int>
    decreases j,
{
    if j <= 0 {
        Seq::empty()
    } else {
        matched_news(os, ns, j - 1) + if new_matched(os, ns, j - 1) {
            seq![j - 1]
        } else {
            Seq::empty()
        }
    }
}

pub proof fn lemma_matched_news(os: Seq<NodeModel>, ns: Seq<NodeModel>, j: int)
    requires
        0 <= j,
    ensures
        forall|k: int| 0 <= k < matched_news(os, ns, j).len() ==> 0 <= #[trigger] matched_news(os, ns, j)[k] < j,
        forall|k: int| 0 <= k < matched_news(os, ns, j).len() ==> new_matched(os, ns, #[trigger] matched_news(os, ns, j)[k]),
        forall|a: int, b: int|
            0 <= a < b < matched_news(os, ns, j).len() ==> #[trigger] matched_news(os, ns, j)[a] < #[trigger] matched_news(
                os,
                ns,
                j,
            )[b],
        forall|t: int| 0 <= t < j && new_matched(os, ns, t) ==> #[trigger] matched_news(os, ns, j).contains(t),
        matched_news(os, ns, j).len() <= j,
    decreases j,
{
    if j > 0 {
        lemma_matched_news(os, ns, j - 1);
        let a = matched_news(os, ns, j - 1);
        let b = matched_news(os, ns, j);
        assert forall|t: int| 0 <= t < j && new_matched(os, ns, t) implies #[trigger] b.contains(t) by {
            if t < j - 1 {
                assert(a.contains(t));
                let w = choose|w: int| 0 <= w < a.len() && a[w] == t;
                assert(b[w] == a[w]);
            } else {
                assert(b[b.len() - 1] == t);
            }
        }
        assert forall|k: int| 0 <= k < b.len() implies 0 <= #[trigger] b[k] < j && new_matched(os, ns, b[k]) by {
            if k < a.len() {
                assert(b[k] == a[k]);
            }
        }
        assert forall|x: int, y: int| 0 <= x < y < b.len() implies #[trigger] b[x] < #[trigger] b[y] by {
            if y < a.len() {
                assert(b[x] == a[x] && b[y] == a[y]);
            } else {
                assert(b[x] == a[x]);
            }
        }
    }
}

/// The partners of the matched new children, in new order; the `r`-th
/// matched new child has rank `r`.
pub open spec fn partner_seq(os: Seq<NodeModel>, ns: Seq<NodeModel>) -> Seq<usize> {
    matched_news(os, ns, ns.len() as int).map_values(|t: int| partner(os, ns, t) as usize)
}

/// The matched child of rank `r` stays where it is: its rank is on the
/// longest increasing run of the partners.
pub open spec fn stays(os: Seq<NodeModel>, ns: Seq<NodeModel>, r: int) -> bool {
    lis_s(partner_seq(os, ns)).contains(r as usize)
}

/// The first index at or after `i` where `s` holds `x`, or the length.
pub open spec fn pos_of(s: Seq<int>, x: int, i: int) -> int
    decreases s.len() - i,
{
    if i < 0 || i >= s.len() {
        s.len() as int
    } else if s[i] == x {
        i
    } else {
        pos_of(s, x, i + 1)
    }
}

/// The old indices in `[i, k)` whose child is matched, in order.
pub open spec fn olds_between(os: Seq<NodeModel>, ns: Seq<NodeModel>, i: int, k: int) -> Seq<int>
    decreases k,
{
    if k <= i || k <= 0 {
        Seq::empty()
    } else {
        olds_between(os, ns, i, k - 1) + if old_matched(os, ns, k - 1) {
            seq![k - 1]
        } else {
            Seq::empty()
        }
    }
}

/// The rank of the matched old child `u`.
pub open spec fn rank_of(os: Seq<NodeModel>, ns: Seq<NodeModel>, u: int) -> int {
    pos_of(partner_seq(os, ns).map_values(|x: usize| x as int), u, 0)
}

/// The ranks of the matched old children, in old order.
pub open spec fn start_ranks(os: Seq<NodeModel>, ns: Seq<NodeModel>) -> Seq<int> {
    olds_between(os, ns, 0, os.len() as int).map_values(|u: int| rank_of(os, ns, u))
}

/// Where a moved child goes in the list `rest` it was taken out of: right
/// after the child of the rank before it, or first.
pub open spec fn move_to(rest: Seq<int>, r: int) -> int {
    if r == 0 {
        0
    } else if pos_of(rest, r - 1, 0) < rest.len() {
        pos_of(rest, r - 1, 0) + 1
    } else {
        rest.len() as int
    }
}

/// The order of the ranks once the children of ranks below `r` that do not
/// stay have been moved, each right after the one of the rank before it.
pub open spec fn rank_state(os: Seq<NodeModel>, ns: Seq<NodeModel>, r: int) -> Seq<int>
    decreases r,
{
    if r <= 0 {
        start_ranks(os, ns)
    } else {
        let s = rank_state(os, ns, r - 1);
        let p = pos_of(s, r - 1, 0);
        if stays(os, ns, r - 1) || p >= s.len() {
            s
        } else {
            let rest = s.remove(p);
            rest.insert(move_to(rest, r - 1), r - 1)
        }
    }
}

/// The `Move` patches for the children of ranks below `r` that do not stay.
pub open spec fn keyed_moves(os: Seq<NodeModel>, ns: Seq<NodeModel>, np: Seq<usize>, r: int) -> Seq<PatchModel>
    decreases r,
{
    if r <= 0 {
        Seq::empty()
    } else {
        let s = rank_state(os, ns, r - 1);
        let p = pos_of(s, r - 1, 0);
        keyed_moves(os, ns, np, r - 1) + if stays(os, ns, r - 1) || p >= s.len() {
            Seq::empty()
        } else {
            seq![
                PatchModel::Move {
                    path: np,
                    from: partner_seq(os, ns)[r - 1],
                    to: move_to(s.remove(p), r - 1) as usize,
                    key: key_or_empty(ns[matched_news(os, ns, ns.len() as int)[r - 1]]),
                },
            ]
        }
    }
}

/// A `Create` at its index for each new child below `j` without partner.
pub open spec fn keyed_creates(ns: Seq<NodeModel>, os: Seq<NodeModel>, np: Seq<usize>, j: int) -> Seq<PatchModel>
    decreases j,
{
    if j <= 0 {
        Seq::empty()
    } else {
        keyed_creates(ns, os, np, j - 1) + if new_matched(os, ns, j - 1) {
            Seq::empty()
        } else {
            seq![PatchModel::Create { path: np, index: (j - 1) as usize, node: ns[j - 1] }]
        }
    }
}

/// `Remove` patches for the unmatched old children below index `i`, highest first.
pub open spec fn keyed_removes(os: Seq<NodeModel>, ns: Seq<NodeModel>, op: Seq<usize>, i: int) -> Seq<PatchModel>
    decreases i,
{
    if i <= 0 {
        Seq::empty()
    } else {
        (if old_matched(os, ns, i - 1) {
            Seq::empty()
        } else {
            seq![PatchModel::Remove { path: op.push((i - 1) as usize) }]
        }) + keyed_removes(os, ns, op, i - 1)
    }
}

/// `Remove` patches for old positions `hi-1` down to `lo`.
pub open spec fn tail_removes(op: Seq<usize>, lo: int, hi: int) -> Seq<PatchModel>
    decreases hi - lo,
{
    if hi <= lo {
        Seq::empty()
    } else {
        seq![PatchModel::Remove { path: op.push((hi - 1) as usize) }] + tail_removes(op, lo, hi - 1)
    }
}

/// `Create` patches for new positions `lo` up to `j - 1`.
pub open spec fn tail_creates(ns: Seq<NodeModel>, np: Seq<usize>, lo: int, j: int) -> Seq<PatchModel>
    decreases j - lo,
{
    if j <= lo {
        Seq::empty()
    } else {
        tail_creates(ns, np, lo, j - 1) + seq![PatchModel::Create { path: np, index: (j - 1) as usize, node: ns[j - 1] }]
    }
}

/// `SetAttr` for every new attribute, in order.
pub open spec fn set_attrs(na: Seq<AttrModel>, p: Seq<usize>) -> Seq<PatchModel> {
    na.map_values(|a: AttrModel| PatchModel::SetAttr { path: p, name: a.name, value: a.value })
}

pub open spec fn has_attr_named(s: Seq<AttrModel>, name: Seq<char>) -> bool {
    exists|j: int| 0 <= j < s.len() && s[j].name == name
}

/// `RemoveAttr` for every old attribute whose name no new attribute has.
pub open spec fn remove_attrs(oa: Seq<AttrModel>, na: Seq<AttrModel>, p: Seq<usize>) -> Seq<PatchModel>
    decreases oa.len(),
{
    if oa.len() == 0 {
        Seq::empty()
    } else {
        remove_attrs(oa.drop_last(), na, p) + if has_attr_named(na, oa.last().name) {
            Seq::empty()
        } else {
            seq![PatchModel::RemoveAttr { path: p, name: oa.last().name }]
        }
    }
}

/// Attribute patches: none when the lists are equal, otherwise set all new
/// attributes and remove the old names that are gone.
pub open spec fn diff_attrs_s(oa: Seq<AttrModel>, na: Seq<AttrModel>, p: Seq<usize>) -> Seq<PatchModel> {
    if oa == na {
        Seq::empty()
    } else {
        set_attrs(na, p) + remove_attrs(oa, na, p)
    }
}

/// The handler of the last listener for `ev` among the first `k` listeners.
pub open spec fn handler_before(ls: Seq<(Seq<char>, Seq<char>)>, ev: Seq<char>, k: int) -> Option<Seq<char>>
    decreases k,
{
    if k <= 0 || k > ls.len() {
        None
    } else if ls[k - 1].0 == ev {
        Some(ls[k - 1].1)
    } else {
        handler_before(ls, ev, k - 1)
    }
}

/// The handler bound to `ev`: later bindings of the same event win.
pub open spec fn handler_for(ls: Seq<(Seq<char>, Seq<char>)>, ev: Seq<char>) -> Option<Seq<char>> {
    handler_before(ls, ev, ls.len() as int)
}

/// The listener at `j` is the last one for its event.
pub open spec fn last_for_event(ls: Seq<(Seq<char>, Seq<char>)>, j: int) -> bool {
    forall|t: int| j < t < ls.len() ==> ls[t].0 != ls[j].0
}

/// `SetListener` for each event of the new list whose handler changed.
pub open spec fn set_listeners(ol: Seq<(Seq<char>, Seq<char>)>, nl: Seq<(Seq<char>, Seq<char>)>, p: Seq<usize>, j: int) -> Seq<PatchModel>
    decreases j,
{
    if j <= 0 {
        Seq::empty()
    } else {
        set_listeners(ol, nl, p, j - 1) + if last_for_event(nl, j - 1) && handler_for(ol, nl[j - 1].0)
            != Some(nl[j - 1].1) {
            seq![PatchModel::SetListener { path: p, event: nl[j - 1].0, handler_id: nl[j - 1].1 }]
        } else {
            Seq::empty()
        }
    }
}

/// `RemoveListener` for each event of the old list that the new list lacks.
pub open spec fn remove_listeners(ol: Seq<(Seq<char>, Seq<char>)>, nl: Seq<(Seq<char>, Seq<char>)>, p: Seq<usize>, j: int) -> Seq<PatchModel>
    decreases j,
{
    if j <= 0 {
        Seq::empty()
    } else {
        remove_listeners(ol, nl, p, j - 1) + if last_for_event(ol, j - 1) && handler_for(nl, ol[j - 1].0) is None {
            seq![PatchModel::RemoveListener { path: p, event: ol[j - 1].0 }]
        } else {
            Seq::empty()
        }
    }
}

/// Listener patches: each distinct event once, in list order.
pub open spec fn diff_listeners_s(ol: Seq<(Seq<char>, Seq<char>)>, nl: Seq<(Seq<char>, Seq<char>)>, p: Seq<usize>) -> Seq<PatchModel> {
    set_listeners(ol, nl, p, nl.len() as int) + remove_listeners(ol, nl, p, ol.len() as int)
}

// --- longest increasing subsequence (patience sorting with back links) ---

/// The first position at or after `k` in `tails` whose value is not below `x`.
pub open spec fn lower_bound_from(seq: Seq<usize>, tails: Seq<int>, x: usize, k: int) -> int
    decreases tails.len() - k,
{
    if k < 0 || k >= tails.len() {
        tails.len() as int
    } else if seq[tails[k]] < x {
        lower_bound_from(seq, tails, x, k + 1)
    } else {
        k
    }
}

/// Tails and back links after the first `i` values of `seq` were placed.
/// A back link of -1 means none.
pub open spec fn lis_state(seq: Seq<usize>, i: nat) -> (Seq<int>, Seq<int>)
    decreases i,
{
    if i == 0 {
        (Seq::empty(), Seq::new(seq.len(), |j: int| -1int))
    } else {
        let (t, p) = lis_state(seq, (i - 1) as nat);
        let lo = lower_bound_from(seq, t, seq[i - 1], 0);
        let t2 = if lo == t.len() {
            t.push(i - 1)
        } else {
            t.update(lo, i - 1)
        };
        let p2 = if lo > 0 {
            p.update(i - 1, t[lo - 1])
        } else {
            p
        };
        (t2, p2)
    }
}

/// The chain of back links that ends at `c`, in increasing order.
pub open spec fn lis_chain(prev: Seq<int>, c: int) -> Seq<usize>
    decreases c,
{
    if c < 0 || c >= prev.len() {
        Seq::empty()
    } else if 0 <= prev[c] < c {
        lis_chain(prev, prev[c]).push(c as usize)
    } else {
        seq![c as usize]
    }
}

/// `r` holds positions of `seq` in increasing order, at which the values of
/// `seq` strictly increase.
pub open spec fn increasing_run(seq: Seq<usize>, r: Seq<usize>) -> bool {
    &&& forall|a: int| 0 <= a < r.len() ==> #[trigger] r[a] < seq.len()
    &&& forall|a: int, b: int| 0 <= a < b < r.len() ==> #[trigger] r[a] < #[trigger] r[b] && seq[r[a] as int] < seq[r[b] as int]
}

/// The positions of the increasing subsequence that patience sorting finds.
pub open spec fn lis_s(seq: Seq<usize>) -> Seq<usize> {
    let (t, p) = lis_state(seq, seq.len());
    if t.len() == 0 {
        Seq::empty()
    } else {
        lis_chain(p, t.last())
    }
}

// --- the tree diff ---

/// Patches that turn `old` into `new`; `op`/`np` are the paths of the two nodes.
pub open spec fn diff_node_s(old: NodeModel, new: NodeModel, op: Seq<usize>, np: Seq<usize>) -> Seq<PatchModel>
    decreases old, new, 0nat,
{
    match old {
        NodeModel::Component(o) => match new {
            NodeModel::Component(n) => if o.name != n.name || o.props_json != n.props_json || o.key != n.key {
                seq![PatchModel::Replace { path: np, new: new }]
            } else {
                diff_node_s(*o.rendered, *n.rendered, op, np)
            },
            _ => diff_node_s(*o.rendered, new, op, np),
        },
        _ => match new {
            NodeModel::Component(n) => diff_node_s(old, *n.rendered, op, np),
            NodeModel::Empty => if old is Empty {
                Seq::empty()
            } else {
                seq![PatchModel::Replace { path: np, new: new }]
            },
            NodeModel::Text(b) => match old {
                NodeModel::Text(a) => if a != b {
                    seq![PatchModel::SetText { path: np, text: b }]
                } else {
                    Seq::empty()
                },
                _ => seq![PatchModel::Replace { path: np, new: new }],
            },
            NodeModel::Element(b) => match old {
                NodeModel::Element(a) => if a.tag != b.tag || a.namespace != b.namespace || a.key != b.key {
                    seq![PatchModel::Replace { path: np, new: new }]
                } else {
                    diff_attrs_s(a.attrs, b.attrs, np) + diff_listeners_s(a.listeners, b.listeners, np)
                        + diff_children_s(a.children, b.children, op, np)
                },
                _ => seq![PatchModel::Replace { path: np, new: new }],
            },
            NodeModel::Fragment(b) => match old {
                NodeModel::Fragment(a) => diff_children_s(a, b, op, np),
                _ => seq![PatchModel::Replace { path: np, new: new }],
            },
        },
    }
}

/// Patches for the first `k` positional child pairs.
pub open spec fn positional_pairs(os: Seq<NodeModel>, ns: Seq<NodeModel>, op: Seq<usize>, np: Seq<usize>, k: int) -> Seq<PatchModel>
    decreases os, ns, k,
{
    if k <= 0 || k > os.len() || k > ns.len() {
        Seq::empty()
    } else {
        positional_pairs(os, ns, op, np, k - 1) + diff_node_s(
            os[k - 1],
            ns[k - 1],
            op.push((k - 1) as usize),
            np.push((k - 1) as usize),
        )
    }
}

/// Patches for the matched pairs among the first `j` new children: their
/// recursive diff.
pub open spec fn keyed_pairs(os: Seq<NodeModel>, ns: Seq<NodeModel>, op: Seq<usize>, np: Seq<usize>, j: int) -> Seq<PatchModel>
    decreases os, ns, j,
{
    if j <= 0 || j > ns.len() {
        Seq::empty()
    } else {
        keyed_pairs(os, ns, op, np, j - 1) + if new_matched(os, ns, j - 1) {
            let old_i = partner(os, ns, j - 1);
            if 0 <= old_i < os.len() {
                diff_node_s(os[old_i], ns[j - 1], op.push(old_i as usize), np.push((j - 1) as usize))
            } else {
                Seq::empty()
            }
        } else {
            Seq::empty()
        }
    }
}

/// Patches for two child lists: positional unless every child is keyed.
pub open spec fn diff_children_s(os: Seq<NodeModel>, ns: Seq<NodeModel>, op: Seq<usize>, np: Seq<usize>) -> Seq<PatchModel>
    decreases os, ns, os.len() + ns.len() + 1,
{
    if os.len() == 0 && ns.len() == 0 {
        Seq::empty()
    } else if all_keyed(os) && all_keyed(ns) {
        keyed_moves(os, ns, np, partner_seq(os, ns).len() as int) + keyed_creates(ns, os, np, ns.len() as int)
            + keyed_removes(os, ns, op, os.len() as int) + keyed_pairs(os, ns, op, np, ns.len() as int)
    } else {
        let common = if os.len() < ns.len() {
            os.len() as int
        } else {
            ns.len() as int
        };
        positional_pairs(os, ns, op, np, common) + tail_removes(op, ns.len() as int, os.len() as int)
            + tail_creates(ns, np, os.len() as int, ns.len() as int)
    }
}

// ---------------------------------------------------------------------------
// Helpers
// ---------------------------------------------------------------------------

pub(crate) fn clone_path(p: &Vec<usize>) -> (r: Vec<usize>)
    ensures
        r@ == p@,
{
    let mut r: Vec<usize> = Vec::new();
    for i in 0..p.len()
        invariant
            r@ == p@.take(i as int),
    {
        r.push(p[i]);
        assert(r@ =~= p@.take(i + 1));
    }
    assert(r@ =~= p@);
    r
}

fn child_path(p: &Vec<usize>, i: usize) -> (r: Vec<usize>)
    ensures
        r@ == p@.push(i),
{
    let mut r = clone_path(p);
    r.push(i);
    r
}

fn emit(out: &mut Vec<Patch>, p: Patch)
    ensures
        patches_model(final(out)@) == patches_model(old(out)@) + seq![p@],
{
    out.push(p);
    assert(patches_model(out@) =~= patches_model(old(out)@) + seq![p@]);
}

/// Whether every node of the list has a key.
fn all_keyed_exec(v: &Vec<VNode>) -> (r: bool)
    ensures
        r == all_keyed(nodes_model(v@)),
{
    let ghost m = nodes_model(v@);
    for i in 0..v.len()
        invariant
            m == nodes_model(v@),
            m.len() == v@.len(),
            forall|j: int| 0 <= j < i ==> (#[trigger] key_of(m[j])) is Some,
    {
        if v[i].key().is_none() {
            assert(key_of(m[i as int]) is None);
            return false;
        }
    }
    true
}

/// The first index whose node has key `k`.
pub(crate) fn find_first_key(v: &Vec<VNode>, k: &str) -> (r: Option<usize>)
    ensures
        match r {
            Some(i) => i < v@.len() && first_key(nodes_model(v@), k@) == i,
            None => first_key(nodes_model(v@), k@) == -1,
        },
{
    let ghost m = nodes_model(v@);
    let mut i: usize = 0;
    while i < v.len()
        invariant
            m == nodes_model(v@),
            m.len() == v@.len(),
            i <= v@.len(),
            first_key_from(m, k@, 0) == first_key_from(m, k@, i as int),
        decreases v@.len() - i,
    {
        let found = match v[i].key() {
            Some(x) => str_eq(x, k),
            None => false,
        };
        if found {
            return Some(i);
        }
        i = i + 1;
    }
    None
}

/// Whether a node before index `j` has key `k`.
fn index_in(v: &Vec<usize>, x: usize) -> (r: usize)
    ensures
        r as int == pos_of(v@.map_values(|y: usize| y as int), x as int, 0),
{
    let ghost s = v@.map_values(|y: usize| y as int);
    let mut i: usize = 0;
    while i < v.len()
        invariant
            s == v@.map_values(|y: usize| y as int),
            i <= v@.len(),
            pos_of(s, x as int, 0) == pos_of(s, x as int, i as int),
        decreases v@.len() - i,
    {
        if v[i] == x {
            return i;
        }
        i = i + 1;
    }
    i
}

fn key_seen(v: &Vec<VNode>, k: &str, j: usize) -> (r: bool)
    requires
        j <= v@.len(),
    ensures
        r == key_seen_before(nodes_model(v@), k@, j as int),
{
    let ghost m = nodes_model(v@);
    for t in 0..j
        invariant
            m == nodes_model(v@),
            m.len() == v@.len(),
            j <= v@.len(),
            forall|u: int| 0 <= u < t ==> key_of(#[trigger] m[u]) != Some(k@),
    {
        let found = match v[t].key() {
            Some(x) => str_eq(x, k),
            None => false,
        };
        if found {
            assert(key_of(m[t as int]) == Some(k@));
            return true;
        }
    }
    false
}

fn has_attr_named_exec(attrs: &Vec<crate::vnode::Attr>, name: &str) -> (r: bool)
    ensures
        r == has_attr_named(attrs_model(attrs@), name@),
{
    let ghost m = attrs_model(attrs@);
    for i in 0..attrs.len()
        invariant
            m == attrs_model(attrs@),
            forall|j: int| 0 <= j < i ==> (#[trigger] m[j]).name != name@,
    {
        if str_eq(attrs[i].name.as_str(), name) {
            assert(m[i as int].name == name@);
            return true;
        }
    }
    false
}

/// Index of the last listener bound to `ev`.
fn handler_index(ls: &Vec<(String, String)>, ev: &str) -> (r: Option<usize>)
    ensures
        match r {
            Some(j) => j < ls@.len() && handler_for(listeners_model(ls@), ev@) == Some(ls@[j as int].1@),
            None => handler_for(listeners_model(ls@), ev@) is None,
        },
{
    let ghost m = listeners_model(ls@);
    let mut k: usize = ls.len();
    while k > 0
        invariant
            m == listeners_model(ls@),
            k <= ls@.len(),
            handler_for(m, ev@) == handler_before(m, ev@, k as int),
        decreases k,
    {
        if str_eq(ls[k - 1].0.as_str(), ev) {
            return Some(k - 1);
        }
        k = k - 1;
    }
    None
}

/// Whether the listener at `j` is the last one for its event.
fn is_last_for_event(ls: &Vec<(String, String)>, j: usize) -> (r: bool)
    requires
        j < ls@.len(),
    ensures
        r == last_for_event(listeners_model(ls@), j as int),
{
    let ghost m = listeners_model(ls@);
    let n = ls.len();
    let mut t = j + 1;
    while t < ls.len()
        invariant
            m == listeners_model(ls@),
            j < t <= ls@.len(),
            forall|u: int| j < u < t ==> (#[trigger] m[u]).0 != m[j as int].0,
        decreases ls@.len() - t,
    {
        if str_eq(ls[t].0.as_str(), ls[j].0.as_str()) {
            assert(m[t as int].0 == m[j as int].0);
            return false;
        }
        t = t + 1;
    }
    true
}

// ---------------------------------------------------------------------------
// The diff
// ---------------------------------------------------------------------------

/// The patches that turn `before` into `after`.
pub fn diff(old_tree: &VNode, new_tree: &VNode) -> (r: Vec<Patch>)
    ensures
        patches_model(r@) == diff_node_s(old_tree@, new_tree@, Seq::empty(), Seq::empty()),
{
    let mut patches: Vec<Patch> = Vec::new();
    let mut op: Vec<usize> = Vec::new();
    let mut np: Vec<usize> = Vec::new();
    assert(op@ =~= Seq::<usize>::empty());
    assert(np@ =~= Seq::<usize>::empty());
    diff_node(old_tree, new_tree, &mut op, &mut np, &mut patches);
    assert(patches_model(patches@) =~= diff_node_s(old_tree@, new_tree@, Seq::empty(), Seq::empty()));
    patches
}

fn diff_node(
    before: &VNode,
    after: &VNode,
    old_path: &mut Vec<usize>,
    new_path: &mut Vec<usize>,
    out: &mut Vec<Patch>,
)
    ensures
        final(old_path)@ == old(old_path)@,
        final(new_path)@ == old(new_path)@,
        patches_model(final(out)@) == patches_model(old(out)@) + diff_node_s(
            before@,
            after@,
            old(old_path)@,
            old(new_path)@,
        ),
    decreases before, after, 2nat,
{
    let ghost start = patches_model(out@);
    match before {
        VNode::Component(o) => {
            match after {
                VNode::Component(n) => {
                    if !str_eq(o.name.as_str(), n.name.as_str()) || !str_eq(
                        o.props_json.as_str(),
                        n.props_json.as_str(),
                    ) || !opt_str_eq(&o.key, &n.key) {
                        emit(out, Patch::Replace { path: clone_path(new_path), new: after.deep_clone() });
                    } else {
                        diff_node(&o.rendered, &n.rendered, old_path, new_path, out);
                    }
                },
                _ => {
                    diff_node(&o.rendered, after, old_path, new_path, out);
                },
            }
            return;
        },
        _ => {},
    }
    match after {
        VNode::Component(n) => {
            diff_node(before, &n.rendered, old_path, new_path, out);
        },
        VNode::Empty => {
            match before {
                VNode::Empty => {},
                _ => {
                    emit(out, Patch::Replace { path: clone_path(new_path), new: VNode::Empty });
                },
            }
        },
        VNode::Text(b) => {
            match before {
                VNode::Text(a) => {
                    if !str_eq(a.as_str(), b.as_str()) {
                        emit(out, Patch::SetText { path: clone_path(new_path), text: b.clone() });
                    }
                },
                _ => {
                    emit(out, Patch::Replace { path: clone_path(new_path), new: after.deep_clone() });
                },
            }
        },
        VNode::Element(b) => {
            match before {
                VNode::Element(a) => {
                    if !str_eq(a.tag.as_str(), b.tag.as_str()) || !opt_str_eq(&a.namespace, &b.namespace)
                        || !opt_str_eq(&a.key, &b.key) {
                        emit(out, Patch::Replace { path: clone_path(new_path), new: after.deep_clone() });
                    } else {
                        diff_attrs(a, b, new_path, out);
                        diff_listeners(a, b, new_path, out);
                        diff_children(&a.children, &b.children, old_path, new_path, out);
                        assert(patches_model(out@) =~= start + diff_node_s(before@, after@, old_path@, new_path@));
                    }
                },
                _ => {
                    emit(out, Patch::Replace { path: clone_path(new_path), new: after.deep_clone() });
                },
            }
        },
        VNode::Fragment(b) => {
            match before {
                VNode::Fragment(a) => {
                    diff_children(a, b, old_path, new_path, out);
                },
                _ => {
                    emit(out, Patch::Replace { path: clone_path(new_path), new: after.deep_clone() });
                },
            }
        },
    }
}

fn diff_attrs(before: &Element, after: &Element, path: &Vec<usize>, out: &mut Vec<Patch>)
    ensures
        patches_model(final(out)@) == patches_model(old(out)@) + diff_attrs_s(
            attrs_model(before.attrs@),
            attrs_model(after.attrs@),
            path@,
        ),
{
    let ghost start = patches_model(out@);
    let ghost oa = attrs_model(before.attrs@);
    let ghost na = attrs_model(after.attrs@);
    if attrs_eq(&before.attrs, &after.attrs) {
        assert(patches_model(out@) =~= start + diff_attrs_s(oa, na, path@));
        return;
    }
    for i in 0..after.attrs.len()
        invariant
            oa == attrs_model(before.attrs@),
            na == attrs_model(after.attrs@),
            na.len() == after.attrs@.len(),
            patches_model(out@) == start + set_attrs(na, path@).take(i as int),
    {
        let a = &after.attrs[i];
        emit(out, Patch::SetAttr { path: clone_path(path), name: a.name.clone(), value: a.value.clone() });
        assert(set_attrs(na, path@).take(i + 1) =~= set_attrs(na, path@).take(i as int) + seq![
            set_attrs(na, path@)[i as int],
        ]);
    }
    assert(set_attrs(na, path@).take(after.attrs@.len() as int) =~= set_attrs(na, path@));
    let ghost mid = patches_model(out@);
    for i in 0..before.attrs.len()
        invariant
            oa == attrs_model(before.attrs@),
            na == attrs_model(after.attrs@),
            oa.len() == before.attrs@.len(),
            patches_model(out@) == mid + remove_attrs(oa.take(i as int), na, path@),
    {
        let name = before.attrs[i].name.as_str();
        proof {
            assert(oa.take(i + 1).drop_last() =~= oa.take(i as int));
        }
        if !has_attr_named_exec(&after.attrs, name) {
            emit(out, Patch::RemoveAttr { path: clone_path(path), name: before.attrs[i].name.clone() });
        }
        assert(patches_model(out@) =~= mid + remove_attrs(oa.take(i + 1), na, path@));
    }
    assert(oa.take(before.attrs@.len() as int) =~= oa);
    assert(patches_model(out@) =~= start + diff_attrs_s(oa, na, path@));
}

fn diff_listeners(before: &Element, after: &Element, path: &Vec<usize>, out: &mut Vec<Patch>)
    ensures
        patches_model(final(out)@) == patches_model(old(out)@) + diff_listeners_s(
            listeners_model(before.listeners@),
            listeners_model(after.listeners@),
            path@,
        ),
{
    let ghost start = patches_model(out@);
    let ghost ol = listeners_model(before.listeners@);
    let ghost nl = listeners_model(after.listeners@);
    for j in 0..after.listeners.len()
        invariant
            ol == listeners_model(before.listeners@),
            nl == listeners_model(after.listeners@),
            patches_model(out@) == start + set_listeners(ol, nl, path@, j as int),
    {
        if is_last_for_event(&after.listeners, j) {
            let same = match handler_index(&before.listeners, after.listeners[j].0.as_str()) {
                Some(t) => str_eq(before.listeners[t].1.as_str(), after.listeners[j].1.as_str()),
                None => false,
            };
            if !same {
                emit(
                    out,
                    Patch::SetListener {
                        path: clone_path(path),
                        event: after.listeners[j].0.clone(),
                        handler_id: after.listeners[j].1.clone(),
                    },
                );
            }
        }
        assert(patches_model(out@) =~= start + set_listeners(ol, nl, path@, j + 1));
    }
    let ghost mid = patches_model(out@);
    for j in 0..before.listeners.len()
        invariant
            ol == listeners_model(before.listeners@),
            nl == listeners_model(after.listeners@),
            patches_model(out@) == mid + remove_listeners(ol, nl, path@, j as int),
    {
        if is_last_for_event(&before.listeners, j) && handler_index(&after.listeners, before.listeners[j].0.as_str()).is_none() {
            emit(out, Patch::RemoveListener { path: clone_path(path), event: before.listeners[j].0.clone() });
        }
        assert(patches_model(out@) =~= mid + remove_listeners(ol, nl, path@, j + 1));
    }
    assert(patches_model(out@) =~= start + diff_listeners_s(ol, nl, path@));
}

fn diff_children(
    before: &Vec<VNode>,
    after: &Vec<VNode>,
    old_parent: &mut Vec<usize>,
    new_parent: &mut Vec<usize>,
    out: &mut Vec<Patch>,
)
    ensures
        final(old_parent)@ == old(old_parent)@,
        final(new_parent)@ == old(new_parent)@,
        patches_model(final(out)@) == patches_model(old(out)@) + diff_children_s(
            nodes_model(before@),
            nodes_model(after@),
            old(old_parent)@,
            old(new_parent)@,
        ),
    decreases before, after, 1nat,
{
    let ghost start = patches_model(out@);
    let ghost os = nodes_model(before@);
    let ghost ns = nodes_model(after@);
    let ghost op = old_parent@;
    let ghost np = new_parent@;
    if before.len() == 0 && after.len() == 0 {
        assert(patches_model(out@) =~= start + diff_children_s(os, ns, op, np));
        return;
    }
    if all_keyed_exec(before) && all_keyed_exec(after) {
        diff_keyed(before, after, old_parent, new_parent, out);
        return;
    }
    let common = if before.len() < after.len() {
        before.len()
    } else {
        after.len()
    };
    for i in 0..common
        invariant
            os == nodes_model(before@),
            ns == nodes_model(after@),
            os.len() == before@.len(),
            ns.len() == after@.len(),
            common <= before@.len(),
            common <= after@.len(),
            old_parent@ == op,
            new_parent@ == np,
            patches_model(out@) == start + positional_pairs(os, ns, op, np, i as int),
    {
        old_parent.push(i);
        new_parent.push(i);
        diff_node(&before[i], &after[i], old_parent, new_parent, out);
        old_parent.pop();
        new_parent.pop();
        assert(old_parent@ =~= op);
        assert(new_parent@ =~= np);
        assert(patches_model(out@) =~= start + positional_pairs(os, ns, op, np, i + 1));
    }
    let ghost mid = patches_model(out@);
    if before.len() > after.len() {
        let mut i = before.len();
        while i > after.len()
            invariant
                after@.len() <= i <= before@.len(),
                old_parent@ == op,
                new_parent@ == np,
                patches_model(out@) + tail_removes(op, after@.len() as int, i as int) == mid + tail_removes(
                    op,
                    after@.len() as int,
                    before@.len() as int,
                ),
            decreases i,
        {
            i = i - 1;
            emit(out, Patch::Remove { path: child_path(old_parent, i) });
            assert(patches_model(out@) + tail_removes(op, after@.len() as int, i as int) =~= mid
                + tail_removes(op, after@.len() as int, before@.len() as int));
        }
    }
    assert(patches_model(out@) =~= mid + tail_removes(op, after@.len() as int, before@.len() as int));
    let ghost mid2 = patches_model(out@);
    if before.len() < after.len() {
        let mut j = before.len();
        while j < after.len()
            invariant
                ns == nodes_model(after@),
                ns.len() == after@.len(),
                before@.len() <= j <= after@.len(),
                old_parent@ == op,
                new_parent@ == np,
                patches_model(out@) == mid2 + tail_creates(ns, np, before@.len() as int, j as int),
            decreases after@.len() - j,
        {
            emit(out, Patch::Create { path: clone_path(new_parent), index: j, node: after[j].deep_clone() });
            j = j + 1;
            assert(patches_model(out@) =~= mid2 + tail_creates(ns, np, before@.len() as int, j as int));
        }
    }
    assert(patches_model(out@) =~= mid2 + tail_creates(ns, np, before@.len() as int, after@.len() as int));
    assert(patches_model(out@) =~= start + diff_children_s(os, ns, op, np));
}

fn diff_keyed(
    before: &Vec<VNode>,
    after: &Vec<VNode>,
    old_parent: &mut Vec<usize>,
    new_parent: &mut Vec<usize>,
    out: &mut Vec<Patch>,
)
    requires
        !(before@.len() == 0 && after@.len() == 0),
        all_keyed(nodes_model(before@)),
        all_keyed(nodes_model(after@)),
    ensures
        final(old_parent)@ == old(old_parent)@,
        final(new_parent)@ == old(new_parent)@,
        patches_model(final(out)@) == patches_model(old(out)@) + diff_children_s(
            nodes_model(before@),
            nodes_model(after@),
            old(old_parent)@,
            old(new_parent)@,
        ),
    decreases before, after, 0nat,
{
    let ghost start = patches_model(out@);
    let ghost os = nodes_model(before@);
    let ghost ns = nodes_model(after@);
    let ghost op = old_parent@;
    let ghost np = new_parent@;
    let mut matched_old: Vec<bool> = Vec::new();
    for i in 0..before.len()
        invariant
            matched_old@.len() == i,
            forall|j: int| 0 <= j < i ==> !(#[trigger] matched_old@[j]),
    {
        matched_old.push(false);
    }
    let mut new_match: Vec<Option<usize>> = Vec::new();
    for new_i in 0..after.len()
        invariant
            os == nodes_model(before@),
            ns == nodes_model(after@),
            os.len() == before@.len(),
            ns.len() == after@.len(),
            matched_old@.len() == before@.len(),
            new_match@.len() == new_i,
            forall|j: int|
                0 <= j < new_i ==> (#[trigger] new_match@[j]) == (if new_matched(os, ns, j) {
                    Some(partner(os, ns, j) as usize)
                } else {
                    None
                }),
            forall|j: int| 0 <= j < new_i && #[trigger] new_matched(os, ns, j) ==> 0 <= partner(os, ns, j) < os.len(),
            forall|i: int|
                0 <= i < before@.len() ==> (#[trigger] matched_old@[i]) == (exists|t: int|
                    0 <= t < new_i && new_matched(os, ns, t) && partner(os, ns, t) == i),
            patches_model(out@) == start,
            old_parent@ == op,
            new_parent@ == np,
    {
        let mut matched_here: Option<usize> = None;
        match after[new_i].key() {
            Some(k) => {
                let already = key_seen(after, k, new_i);
                if !already {
                    match find_first_key(before, k) {
                        Some(old_i) => {
                            matched_here = Some(old_i);
                        },
                        None => {},
                    }
                }
            },
            None => {},
        }
        assert(matched_here == (if new_matched(os, ns, new_i as int) {
            Some(partner(os, ns, new_i as int) as usize)
        } else {
            None
        }));
        match matched_here {
            Some(old_i) => {
                matched_old.set(old_i, true);
                new_match.push(Some(old_i));
                assert forall|i: int| 0 <= i < before@.len() implies (#[trigger] matched_old@[i]) == (exists|t: int|
                    0 <= t < new_i + 1 && new_matched(os, ns, t) && partner(os, ns, t) == i) by {
                    if i == old_i as int {
                        assert(new_matched(os, ns, new_i as int) && partner(os, ns, new_i as int) == i);
                    }
                }
            },
            None => {
                new_match.push(None);
                assert forall|i: int| 0 <= i < before@.len() implies (#[trigger] matched_old@[i]) == (exists|t: int|
                    0 <= t < new_i + 1 && new_matched(os, ns, t) && partner(os, ns, t) == i) by {
                    if exists|t: int| 0 <= t < new_i + 1 && new_matched(os, ns, t) && partner(os, ns, t) == i {
                        let t = choose|t: int| 0 <= t < new_i + 1 && new_matched(os, ns, t) && partner(os, ns, t) == i;
                        assert(t != new_i);
                    }
                }
            },
        }
    }
    // The matched new children by rank, and their partners.
    let mut news: Vec<usize> = Vec::new();
    let mut ps: Vec<usize> = Vec::new();
    for t in 0..after.len()
        invariant
            os == nodes_model(before@),
            ns == nodes_model(after@),
            ns.len() == after@.len(),
            new_match@.len() == after@.len(),
            forall|x: int|
                0 <= x < after@.len() ==> (#[trigger] new_match@[x]) == (if new_matched(os, ns, x) {
                    Some(partner(os, ns, x) as usize)
                } else {
                    None
                }),
            news@.map_values(|y: usize| y as int) == matched_news(os, ns, t as int),
            ps@ == matched_news(os, ns, t as int).map_values(|u: int| partner(os, ns, u) as usize),
    {
        let ghost mn = matched_news(os, ns, t as int);
        match new_match[t] {
            Some(p) => {
                assert(new_matched(os, ns, t as int));
                news.push(t);
                ps.push(p);
            },
            None => {
                assert(!new_matched(os, ns, t as int));
            },
        }
        assert(news@.map_values(|y: usize| y as int) =~= matched_news(os, ns, t + 1));
        assert(ps@ =~= matched_news(os, ns, t + 1).map_values(|u: int| partner(os, ns, u) as usize));
    }
    let ghost pseq = partner_seq(os, ns);
    assert(ps@ == pseq);
    let m = ps.len();
    let lis = lis_indices(&ps);
    let mut stay: Vec<bool> = Vec::new();
    for r in 0..m
        invariant
            stay@.len() == r,
            forall|x: int| 0 <= x < r ==> !(#[trigger] stay@[x]),
    {
        stay.push(false);
    }
    for k in 0..lis.len()
        invariant
            m == ps@.len(),
            lis@ == lis_s(ps@),
            increasing_run(ps@, lis@),
            stay@.len() == m,
            forall|x: int| 0 <= x < m ==> (#[trigger] stay@[x]) == lis@.take(k as int).contains(x as usize),
    {
        assert(lis@[k as int] < m);
        let x = lis[k];
        stay.set(x, true);
        assert forall|y: int| 0 <= y < m implies (#[trigger] stay@[y]) == lis@.take(k + 1).contains(y as usize) by {
            let t1 = lis@.take(k + 1);
            let t0 = lis@.take(k as int);
            assert(t1 =~= t0.push(x));
            if t0.contains(y as usize) {
                let w = choose|w: int| 0 <= w < t0.len() && t0[w] == y as usize;
                assert(t1[w] == t0[w]);
            }
            if t1.contains(y as usize) {
                let w = choose|w: int| 0 <= w < t1.len() && t1[w] == y as usize;
                if w < t0.len() {
                    assert(t0[w] == t1[w]);
                }
            }
            if y == x as int {
                assert(t1[k as int] == x);
            }
        }
    }
    assert(lis@.take(lis@.len() as int) =~= lis@);
    // The ranks of the matched old children, in old order.
    let mut state: Vec<usize> = Vec::new();
    for i in 0..before.len()
        invariant
            os == nodes_model(before@),
            ns == nodes_model(after@),
            os.len() == before@.len(),
            ps@ == pseq,
            pseq == partner_seq(os, ns),
            matched_old@.len() == before@.len(),
            forall|x: int| 0 <= x < before@.len() ==> (#[trigger] matched_old@[x]) == old_matched(os, ns, x),
            state@.map_values(|y: usize| y as int) == olds_between(os, ns, 0, i as int).map_values(
                |u: int| rank_of(os, ns, u),
            ),
    {
        let ghost before_state = state@.map_values(|y: usize| y as int);
        assert(olds_between(os, ns, 0, i + 1) == olds_between(os, ns, 0, i as int) + if old_matched(os, ns, i as int) {
            seq![i as int]
        } else {
            Seq::<int>::empty()
        });
        let ghost ob = olds_between(os, ns, 0, i as int);
        if matched_old[i] {
            let r = index_in(&ps, i);
            assert(r as int == rank_of(os, ns, i as int));
            state.push(r);
            assert(olds_between(os, ns, 0, i + 1) == ob.push(i as int));
            assert(olds_between(os, ns, 0, i + 1).map_values(|u: int| rank_of(os, ns, u)) =~= ob.map_values(
                |u: int| rank_of(os, ns, u),
            ).push(rank_of(os, ns, i as int)));
            assert(state@.map_values(|y: usize| y as int) =~= before_state.push(r as int));
        } else {
            assert(olds_between(os, ns, 0, i + 1) =~= ob);
        }
        assert(state@.map_values(|y: usize| y as int) =~= olds_between(os, ns, 0, i + 1).map_values(
            |u: int| rank_of(os, ns, u),
        ));
    }
    assert(state@.map_values(|y: usize| y as int) == start_ranks(os, ns));
    assert forall|x: int| 0 <= x < m implies (#[trigger] stay@[x]) == stays(os, ns, x) by {
        assert(stay@[x] == lis@.take(lis@.len() as int).contains(x as usize));
    }
    proof {
        lemma_matched_news(os, ns, ns.len() as int);
    }
    // Move each child that does not stay right after the one of the rank
    // before it.
    for r in 0..m
        invariant
            os == nodes_model(before@),
            ns == nodes_model(after@),
            ns.len() == after@.len(),
            m == ps@.len(),
            ps@ == pseq,
            pseq == partner_seq(os, ns),
            news@.map_values(|y: usize| y as int) == matched_news(os, ns, ns.len() as int),
            forall|k: int|
                0 <= k < matched_news(os, ns, ns.len() as int).len() ==> 0 <= #[trigger] matched_news(
                    os,
                    ns,
                    ns.len() as int,
                )[k] < ns.len(),
            stay@.len() == m,
            forall|x: int| 0 <= x < m ==> (#[trigger] stay@[x]) == stays(os, ns, x),
            state@.map_values(|y: usize| y as int) == rank_state(os, ns, r as int),
            patches_model(out@) == start + keyed_moves(os, ns, np, r as int),
            old_parent@ == op,
            new_parent@ == np,
    {
        let ghost s = rank_state(os, ns, r as int);
        if !stay[r] {
            let p = index_in(&state, r);
            if p < state.len() {
                state.remove(p);
                let ghost rest = s.remove(p as int);
                assert(state@.map_values(|y: usize| y as int) =~= rest);
                let to = if r == 0 {
                    0
                } else {
                    let q = index_in(&state, r - 1);
                    if q < state.len() {
                        q + 1
                    } else {
                        state.len()
                    }
                };
                assert(to as int == move_to(rest, r as int));
                state.insert(to, r);
                assert(state@.map_values(|y: usize| y as int) =~= rest.insert(to as int, r as int));
                let ghost mn = matched_news(os, ns, ns.len() as int);
                assert(news@[r as int] as int == mn[r as int]);
                let t = news[r];
                let key = match after[t].key() {
                    Some(k) => k.to_owned(),
                    None => String::new(),
                };
                assert(key@ == key_or_empty(ns[t as int]));
                emit(out, Patch::Move { path: clone_path(new_parent), from: ps[r], to, key });
            }
        }
        assert(state@.map_values(|y: usize| y as int) =~= rank_state(os, ns, r + 1));
        assert(patches_model(out@) =~= start + keyed_moves(os, ns, np, r + 1));
    }
    let ghost mv = patches_model(out@);
    for new_i in 0..after.len()
        invariant
            os == nodes_model(before@),
            ns == nodes_model(after@),
            os.len() == before@.len(),
            ns.len() == after@.len(),
            new_match@.len() == after@.len(),
            forall|x: int|
                0 <= x < after@.len() ==> (#[trigger] new_match@[x]) == (if new_matched(os, ns, x) {
                    Some(partner(os, ns, x) as usize)
                } else {
                    None
                }),
            patches_model(out@) == mv + keyed_creates(ns, os, np, new_i as int),
            old_parent@ == op,
            new_parent@ == np,
    {
        match new_match[new_i] {
            Some(_) => {
                assert(new_matched(os, ns, new_i as int));
            },
            None => {
                assert(!new_matched(os, ns, new_i as int));
                emit(
                    out,
                    Patch::Create { path: clone_path(new_parent), index: new_i, node: after[new_i].deep_clone() },
                );
            },
        }
        assert(patches_model(out@) =~= mv + keyed_creates(ns, os, np, new_i + 1));
    }
    assert(mv + keyed_creates(ns, os, np, ns.len() as int) =~= start + keyed_moves(
        os,
        ns,
        np,
        pseq.len() as int,
    ) + keyed_creates(ns, os, np, ns.len() as int));
    let ghost mid = patches_model(out@);
    let mut i = before.len();
    while i > 0
        invariant
            os == nodes_model(before@),
            ns == nodes_model(after@),
            i <= before@.len(),
            matched_old@.len() == before@.len(),
            forall|x: int|
                0 <= x < before@.len() ==> (#[trigger] matched_old@[x]) == old_matched(os, ns, x),
            old_parent@ == op,
            new_parent@ == np,
            patches_model(out@) + keyed_removes(os, ns, op, i as int) == mid + keyed_removes(
                os,
                ns,
                op,
                before@.len() as int,
            ),
        decreases i,
    {
        i = i - 1;
        if !matched_old[i] {
            emit(out, Patch::Remove { path: child_path(old_parent, i) });
        }
        assert(patches_model(out@) + keyed_removes(os, ns, op, i as int) =~= mid + keyed_removes(
            os,
            ns,
            op,
            before@.len() as int,
        ));
    }
    assert(patches_model(out@) =~= mid + keyed_removes(os, ns, op, before@.len() as int));
    let ghost mid2 = patches_model(out@);
    let blen = before.len();
    for new_i in 0..after.len()
        invariant
            blen == before@.len(),
            os == nodes_model(before@),
            ns == nodes_model(after@),
            os.len() == before@.len(),
            ns.len() == after@.len(),
            new_match@.len() == after@.len(),
            forall|x: int|
                0 <= x < after@.len() ==> (#[trigger] new_match@[x]) == (if new_matched(os, ns, x) {
                    Some(partner(os, ns, x) as usize)
                } else {
                    None
                }),
            forall|x: int| 0 <= x < after@.len() && #[trigger] new_matched(os, ns, x) ==> 0 <= partner(os, ns, x) < os.len(),
            old_parent@ == op,
            new_parent@ == np,
            patches_model(out@) == mid2 + keyed_pairs(os, ns, op, np, new_i as int),
    {
        let ghost snap = patches_model(out@);
        match new_match[new_i] {
            Some(old_i) => {
                proof {
                    assert(new_match@[new_i as int] == Some(old_i));
                    assert(new_matched(os, ns, new_i as int));
                    assert(0 <= partner(os, ns, new_i as int) < os.len());
                    assert(partner(os, ns, new_i as int) == old_i as int);
                }
                old_parent.push(old_i);
                new_parent.push(new_i);
                diff_node(&before[old_i], &after[new_i], old_parent, new_parent, out);
                old_parent.pop();
                new_parent.pop();
                assert(old_parent@ =~= op);
                assert(new_parent@ =~= np);
                assert(patches_model(out@) == snap + diff_node_s(
                    os[old_i as int],
                    ns[new_i as int],
                    op.push(old_i),
                    np.push(new_i),
                ));
            },
            None => {},
        }
        assert(patches_model(out@) =~= mid2 + keyed_pairs(os, ns, op, np, new_i + 1));
    }
    assert(patches_model(out@) =~= start + diff_children_s(os, ns, op, np));
}

// ---------------------------------------------------------------------------
// Longest increasing subsequence
// ---------------------------------------------------------------------------

pub open spec fn tails_int(t: Seq<usize>) -> Seq<int> {
    t.map_values(|x: usize| x as int)
}

pub open spec fn prev_int(p: Seq<Option<usize>>) -> Seq<int> {
    p.map_values(
        |o: Option<usize>|
            match o {
                Some(x) => x as int,
                None => -1int,
            },
    )
}

proof fn lemma_lower_bound(seq: Seq<usize>, t: Seq<int>, x: usize, k: int, lo: int)
    requires
        0 <= k <= lo <= t.len(),
        forall|j: int| 0 <= j < lo ==> seq[#[trigger] t[j]] < x,
        lo < t.len() ==> !(seq[t[lo]] < x),
    ensures
        lower_bound_from(seq, t, x, k) == lo,
    decreases lo - k,
{
    if k < lo {
        lemma_lower_bound(seq, t, x, k + 1, lo);
    }
}

// --- patience sorting finds a longest increasing run ---

pub open spec fn tails_of(seq: Seq<usize>, i: nat) -> Seq<int> {
    lis_state(seq, i).0
}

pub open spec fn links_of(seq: Seq<usize>, i: nat) -> Seq<int> {
    lis_state(seq, i).1
}

proof fn lemma_lower_bound_spec(seq: Seq<usize>, t: Seq<int>, x: usize, k: int)
    requires
        0 <= k <= t.len(),
        forall|a: int| 0 <= a < t.len() ==> 0 <= #[trigger] t[a] < seq.len(),
    ensures
        k <= lower_bound_from(seq, t, x, k) <= t.len(),
        forall|a: int| k <= a < lower_bound_from(seq, t, x, k) ==> seq[#[trigger] t[a]] < x,
        lower_bound_from(seq, t, x, k) < t.len() ==> seq[t[lower_bound_from(seq, t, x, k)]] >= x,
    decreases t.len() - k,
{
    if k < t.len() && seq[t[k]] < x {
        lemma_lower_bound_spec(seq, t, x, k + 1);
    }
}

/// A chain reads only the back links at or below where it starts.
proof fn lemma_chain_frame(p: Seq<int>, q: Seq<int>, c: int)
    requires
        p.len() == q.len(),
        forall|j: int| 0 <= j <= c && j < p.len() ==> p[j] == q[j],
    ensures
        lis_chain(p, c) == lis_chain(q, c),
    decreases c,
{
    if 0 <= c < p.len() && 0 <= p[c] < c {
        lemma_chain_frame(p, q, p[c]);
    }
}

/// What patience sorting keeps after the first `i` values: tails whose
/// values increase, back links pointing earlier and set only below `i`,
/// each tail ending a chain one longer than its place, and every increasing
/// run among the first `i` positions no longer than the tails and ending no
/// lower than the tail of its length.
proof fn lemma_lis_state(seq: Seq<usize>, i: nat)
    requires
        i <= seq.len(),
        seq.len() <= usize::MAX,
    ensures
        links_of(seq, i).len() == seq.len(),
        forall|a: int, b: int|
            0 <= a < b < tails_of(seq, i).len() ==> seq[#[trigger] tails_of(seq, i)[a]] < seq[#[trigger] tails_of(
                seq,
                i,
            )[b]],
        forall|a: int| 0 <= a < tails_of(seq, i).len() ==> 0 <= #[trigger] tails_of(seq, i)[a] < i,
        forall|j: int| 0 <= j < seq.len() ==> #[trigger] links_of(seq, i)[j] < j,
        forall|j: int| i <= j < seq.len() ==> #[trigger] links_of(seq, i)[j] == -1,
        forall|j: int|
            0 <= j < seq.len() && 0 <= #[trigger] links_of(seq, i)[j] ==> seq[links_of(seq, i)[j]] < seq[j],
        forall|a: int|
            0 <= a < tails_of(seq, i).len() ==> #[trigger] lis_chain(links_of(seq, i), tails_of(seq, i)[a]).len() == a
                + 1,
        forall|r: Seq<usize>|
            #[trigger] increasing_run(seq, r) && r.len() > 0 && r.last() < i ==> r.len() <= tails_of(seq, i).len()
                && seq[tails_of(seq, i)[r.len() - 1]] <= seq[r.last() as int],
    decreases i,
{
    if i == 0 {
        assert(links_of(seq, 0) == Seq::new(seq.len(), |j: int| -1int));
    } else {
        let i1 = (i - 1) as nat;
        lemma_lis_state(seq, i1);
        let t = tails_of(seq, i1);
        let p = links_of(seq, i1);
        let c = i - 1;
        let x = seq[c];
        let lo = lower_bound_from(seq, t, x, 0);
        lemma_lower_bound_spec(seq, t, x, 0);
        let t2 = tails_of(seq, i);
        let p2 = links_of(seq, i);
        assert(t2 == if lo == t.len() {
            t.push(c)
        } else {
            t.update(lo, c)
        });
        assert(p2 == if lo > 0 {
            p.update(c, t[lo - 1])
        } else {
            p
        });
        // values at or after lo are not below x
        assert forall|a: int| lo <= a < t.len() implies seq[#[trigger] t[a]] >= x by {
            if a > lo {
                assert(seq[t[lo]] < seq[t[a]]);
            }
        }
        assert forall|a: int, b: int| 0 <= a < b < t2.len() implies seq[#[trigger] t2[a]] < seq[#[trigger] t2[b]] by {
            if b == lo {
                assert(seq[t[a]] < x);
            } else if a == lo {
                assert(seq[t[lo]] < seq[t[b]]);
            } else {
                assert(seq[t[a]] < seq[t[b]]);
            }
        }
        assert forall|j: int| 0 <= j < seq.len() implies #[trigger] p2[j] < j by {
            if j == c && lo > 0 {
                assert(t[lo - 1] < c);
            } else {
                assert(p[j] < j);
            }
        }
        assert forall|j: int| i <= j < seq.len() implies #[trigger] p2[j] == -1 by {
            assert(p[j] == -1);
        }
        assert forall|j: int| 0 <= j < seq.len() && 0 <= #[trigger] p2[j] implies seq[p2[j]] < seq[j] by {
            if j == c && lo > 0 {
                assert(seq[t[lo - 1]] < x);
            } else {
                assert(p2[j] == p[j]);
            }
        }
        assert forall|a: int| 0 <= a < t2.len() implies #[trigger] lis_chain(p2, t2[a]).len() == a + 1 by {
            if a == lo {
                if lo > 0 {
                    let q = t[lo - 1];
                    assert(p2[c] == q);
                    lemma_chain_frame(p2, p, q);
                    assert(lis_chain(p, t[lo - 1]).len() == lo);
                } else {
                    assert(p2[c] == -1);
                }
            } else {
                assert(t2[a] == t[a]);
                lemma_chain_frame(p2, p, t[a]);
                assert(lis_chain(p, t[a]).len() == a + 1);
            }
        }
        assert forall|r: Seq<usize>| #[trigger] increasing_run(seq, r) && r.len() > 0 && r.last() < i implies r.len()
            <= t2.len() && seq[t2[r.len() - 1]] <= seq[r.last() as int] by {
            let m = r.len() - 1;
            if r.last() < c {
                assert(r.len() <= t.len() && seq[t[m]] <= seq[r.last() as int]);
                if m == lo {
                    assert(x <= seq[t[lo]]);
                }
            } else {
                assert(r.last() == c);
                if m == 0 {
                    if lo > 0 {
                        assert(seq[t[0]] < x);
                    }
                } else {
                    let r1 = r.drop_last();
                    assert(increasing_run(seq, r1)) by {
                        assert forall|a: int| 0 <= a < r1.len() implies #[trigger] r1[a] < seq.len() by {
                            assert(r1[a] == r[a]);
                        }
                        assert forall|a: int, b: int| 0 <= a < b < r1.len() implies #[trigger] r1[a] < #[trigger] r1[b]
                            && seq[r1[a] as int] < seq[r1[b] as int] by {
                            assert(r1[a] == r[a] && r1[b] == r[b]);
                        }
                    }
                    assert(r[m - 1] < r[m] && seq[r[m - 1] as int] < seq[r[m] as int]);
                    assert(r1.last() == r[m - 1]);
                    assert(r1.len() <= t.len() && seq[t[m - 1]] <= seq[r1.last() as int]);
                    assert(m - 1 < lo) by {
                        if m - 1 >= lo {
                            assert(seq[t[m - 1]] >= x);
                        }
                    }
                    if m < lo {
                        assert(seq[t[m]] < x);
                    }
                }
            }
        }
    }
}

/// The run patience sorting finds increases.
pub proof fn lemma_lis_run(seq: Seq<usize>)
    requires
        seq.len() <= usize::MAX,
    ensures
        increasing_run(seq, lis_s(seq)),
{
    let n = seq.len();
    lemma_lis_state(seq, n);
    let t = tails_of(seq, n);
    let p = links_of(seq, n);
    if t.len() > 0 {
        lemma_chain_increasing(seq, p, t[t.len() - 1]);
    }
}

/// No increasing run of `seq` is longer than the one patience sorting finds.
pub proof fn lemma_lis_longest(seq: Seq<usize>, r: Seq<usize>)
    requires
        seq.len() <= usize::MAX,
        increasing_run(seq, r),
    ensures
        r.len() <= lis_s(seq).len(),
{
    let n = seq.len();
    lemma_lis_state(seq, n);
    let t = tails_of(seq, n);
    let p = links_of(seq, n);
    if r.len() > 0 {
        assert(r[r.len() - 1] < seq.len());
        assert(r.len() <= t.len());
        assert(lis_chain(p, t[t.len() - 1]).len() == t.len());
    }
}

/// Positions in `seq` of a longest increasing subsequence, found by
/// patience sorting with back links.
pub fn lis_indices(seq: &Vec<usize>) -> (r: Vec<usize>)
    ensures
        r@ == lis_s(seq@),
        increasing_run(seq@, r@),
        forall|q: Seq<usize>| #[trigger] increasing_run(seq@, q) ==> q.len() <= r@.len(),
{
    let n = seq.len();
    if n == 0 {
        proof {
            assert forall|q: Seq<usize>| #[trigger] increasing_run(seq@, q) implies q.len() <= 0 by {
                if q.len() > 0 {
                    assert(q[0] < seq@.len());
                }
            }
        }
        return Vec::new();
    }
    let mut tails: Vec<usize> = Vec::new();
    let mut prev: Vec<Option<usize>> = Vec::new();
    for j in 0..n
        invariant
            prev@.len() == j,
            forall|k: int| 0 <= k < j ==> (#[trigger] prev@[k]) is None,
    {
        prev.push(None);
    }
    assert(prev_int(prev@) =~= Seq::new(seq@.len(), |j: int| -1int));
    assert(tails_int(tails@) =~= Seq::<int>::empty());
    for i in 0..n
        invariant
            n == seq@.len(),
            n > 0,
            prev@.len() == n,
            lis_state(seq@, i as nat) == (tails_int(tails@), prev_int(prev@)),
            forall|a: int, b: int| 0 <= a < b < tails@.len() ==> seq@[#[trigger] tails@[a] as int] < seq@[#[trigger] tails@[b] as int],
            forall|a: int| 0 <= a < tails@.len() ==> #[trigger] tails@[a] < i,
            forall|j: int| 0 <= j < n ==> (#[trigger] prev@[j] matches Some(p) ==> p < j),
            forall|j: int| 0 <= j < n ==> (#[trigger] prev@[j] matches Some(p) ==> seq@[p as int] < seq@[j]),
            i > 0 ==> tails@.len() > 0,
    {
        let x = seq[i];
        let mut lo: usize = 0;
        let mut hi: usize = tails.len();
        while lo < hi
            invariant
                0 <= lo <= hi <= tails@.len(),
                n == seq@.len(),
                forall|a: int, b: int| 0 <= a < b < tails@.len() ==> seq@[#[trigger] tails@[a] as int] < seq@[#[trigger] tails@[b] as int],
                forall|a: int| 0 <= a < tails@.len() ==> #[trigger] tails@[a] < i,
                i < n,
                x == seq@[i as int],
                forall|j: int| 0 <= j < lo ==> seq@[#[trigger] tails@[j] as int] < x,
                forall|j: int| hi <= j < tails@.len() ==> !(seq@[#[trigger] tails@[j] as int] < x),
            decreases hi - lo,
        {
            let mid = lo + (hi - lo) / 2;
            if seq[tails[mid]] < x {
                lo = mid + 1;
            } else {
                hi = mid;
            }
        }
        let ghost t = tails_int(tails@);
        let ghost p = prev_int(prev@);
        proof {
            assert forall|j: int| 0 <= j < lo implies seq@[#[trigger] t[j]] < x by {
                assert(t[j] == tails@[j] as int);
            }
            if lo < t.len() {
                assert(t[lo as int] == tails@[lo as int] as int);
            }
            lemma_lower_bound(seq@, t, x, 0, lo as int);
        }
        if lo > 0 {
            let back = tails[lo - 1];
            assert(seq@[back as int] < x);
            prev.set(i, Some(back));
        }
        if lo == tails.len() {
            tails.push(i);
        } else {
            tails.set(lo, i);
        }
        proof {
            let t2 = if lo == t.len() {
                t.push(i as int)
            } else {
                t.update(lo as int, i as int)
            };
            let p2 = if lo > 0 {
                p.update(i as int, t[lo - 1])
            } else {
                p
            };
            assert(tails_int(tails@) =~= t2);
            assert(prev_int(prev@) =~= p2);
        }
    }
    let ghost fp = prev_int(prev@);
    let ghost start = tails@[tails@.len() - 1] as int;
    let mut c: usize = tails[tails.len() - 1];
    let mut rev: Vec<usize> = Vec::new();
    proof {
        assert(rev@.reverse() =~= Seq::<usize>::empty());
        assert(lis_chain(fp, start) =~= lis_chain(fp, c as int) + rev@.reverse());
    }
    loop
        invariant_except_break
            c < n,
            lis_chain(fp, start) == lis_chain(fp, c as int) + rev@.reverse(),
        invariant
            n == seq@.len(),
            prev@.len() == n,
            fp == prev_int(prev@),
            forall|j: int| 0 <= j < n ==> (#[trigger] prev@[j] matches Some(p) ==> p < j),
        ensures
            lis_chain(fp, start) == rev@.reverse(),
        decreases c,
    {
        let ghost old_rev = rev@;
        rev.push(c);
        proof {
            assert(rev@.reverse() =~= seq![c] + old_rev.reverse());
        }
        match prev[c] {
            Some(pc) => {
                proof {
                    assert(fp[c as int] == pc as int);
                    assert(lis_chain(fp, c as int) == lis_chain(fp, pc as int).push(c));
                    assert(lis_chain(fp, pc as int).push(c) + old_rev.reverse() =~= lis_chain(fp, pc as int) + rev@.reverse());
                }
                c = pc;
            },
            None => {
                proof {
                    assert(fp[c as int] == -1);
                    assert(lis_chain(fp, c as int) == seq![c]);
                    assert(seq![c] + old_rev.reverse() =~= rev@.reverse());
                }
                break;
            },
        }
    }
    let mut out: Vec<usize> = Vec::new();
    let len = rev.len();
    for k in 0..len
        invariant
            len == rev@.len(),
            out@ == rev@.reverse().take(k as int),
    {
        out.push(rev[len - 1 - k]);
        assert(out@ =~= rev@.reverse().take(k + 1));
    }
    assert(out@ =~= rev@.reverse());
    proof {
        assert forall|j: int| 0 <= j < fp.len() && 0 <= #[trigger] fp[j] < j implies seq@[fp[j]] < seq@[j] by {
            assert(prev@[j] is Some);
        }
        lemma_chain_increasing(seq@, fp, start);
        assert forall|q: Seq<usize>| #[trigger] increasing_run(seq@, q) implies q.len() <= out@.len() by {
            lemma_lis_longest(seq@, q);
        }
    }
    out
}

proof fn lemma_chain_increasing(seq: Seq<usize>, fp: Seq<int>, c: int)
    requires
        fp.len() == seq.len(),
        seq.len() <= usize::MAX,
        0 <= c < fp.len(),
        forall|j: int| 0 <= j < fp.len() && 0 <= #[trigger] fp[j] < j ==> seq[fp[j]] < seq[j],
    ensures
        lis_chain(fp, c).len() > 0,
        lis_chain(fp, c).last() == c,
        increasing_run(seq, lis_chain(fp, c)),
    decreases c,
{
    if 0 <= fp[c] < c {
        let q = fp[c];
        lemma_chain_increasing(seq, fp, q);
        let pre = lis_chain(fp, q);
        let r = lis_chain(fp, c);
        assert(r == pre.push(c as usize));
        assert forall|a: int, b: int| 0 <= a < b < r.len() implies #[trigger] r[a] < #[trigger] r[b] && seq[r[a] as int]
            < seq[r[b] as int] by {
            if b == r.len() - 1 {
                if a < pre.len() - 1 {
                    assert(pre[a] < pre[pre.len() - 1]);
                }
            } else {
                assert(pre[a] < pre[b]);
            }
        }
    }
}

} // verus!
