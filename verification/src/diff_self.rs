//! A tree diffed against itself.
use vstd::prelude::*;
use crate::model::NodeModel;
use crate::vnode::key_of;
use crate::patch::PatchModel;
use crate::diff::{
    first_key_from, new_matched, partner, old_matched, key_or_empty, key_seen_before, diff_node_s,
    diff_attrs_s, diff_listeners_s, diff_children_s, positional_pairs, all_keyed, set_listeners,
    remove_listeners, handler_before, last_for_event, tail_removes, tail_creates, keyed_moves, keyed_creates,
    keyed_removes, keyed_pairs, matched_news, partner_seq, stays, lis_s, increasing_run, lemma_lis_longest,
    lemma_lis_run,
};

verus! {

/// Where every sibling of `s` carries a key, the keys are pairwise
/// distinct (a list with an unkeyed sibling is diffed by position, so its
/// keys may repeat); and the number of siblings fits in `usize`.
pub open spec fn sibling_keys_distinct(s: Seq<NodeModel>) -> bool {
    &&& s.len() <= usize::MAX
    &&& all_keyed(s) ==> forall|i: int, j: int|
        0 <= i < j < s.len() ==> #[trigger] key_of(s[i]) != #[trigger] key_of(s[j])
}

/// At every level of the tree, keyed siblings carry distinct keys.
pub open spec fn keys_distinct_tree(n: NodeModel) -> bool
    decreases n, 0int,
{
    match n {
        NodeModel::Element(e) => sibling_keys_distinct(e.children) && keys_distinct_each(
            e.children,
            e.children.len() as int,
        ),
        NodeModel::Fragment(c) => sibling_keys_distinct(c) && keys_distinct_each(c, c.len() as int),
        NodeModel::Component(c) => keys_distinct_tree(*c.rendered),
        _ => true,
    }
}

/// The first `k` nodes of `s` each satisfy `keys_distinct_tree`.
pub open spec fn keys_distinct_each(s: Seq<NodeModel>, k: int) -> bool
    decreases s, k,
{
    if k <= 0 || k > s.len() {
        true
    } else {
        keys_distinct_each(s, k - 1) && keys_distinct_tree(s[k - 1])
    }
}

proof fn lemma_each_at(s: Seq<NodeModel>, k: int, t: int)
    requires
        keys_distinct_each(s, k),
        0 <= t < k <= s.len(),
    ensures
        keys_distinct_tree(s[t]),
    decreases k,
{
    if t < k - 1 {
        lemma_each_at(s, k - 1, t);
    }
}

proof fn lemma_handler_last(ls: Seq<(Seq<char>, Seq<char>)>, j: int, k: int)
    requires
        0 <= j < k <= ls.len(),
        forall|t: int| j < t < k ==> (#[trigger] ls[t]).0 != ls[j].0,
    ensures
        handler_before(ls, ls[j].0, k) == Some(ls[j].1),
    decreases k,
{
    if k - 1 > j {
        lemma_handler_last(ls, j, k - 1);
    }
}

proof fn lemma_handler_some(ls: Seq<(Seq<char>, Seq<char>)>, j: int, k: int)
    requires
        0 <= j < k <= ls.len(),
    ensures
        handler_before(ls, ls[j].0, k) is Some,
    decreases k,
{
    if k - 1 > j && ls[k - 1].0 != ls[j].0 {
        lemma_handler_some(ls, j, k - 1);
    }
}

proof fn lemma_listeners_self(l: Seq<(Seq<char>, Seq<char>)>, p: Seq<usize>, j: int)
    requires
        0 <= j <= l.len(),
    ensures
        set_listeners(l, l, p, j) == Seq::<PatchModel>::empty(),
        remove_listeners(l, l, p, j) == Seq::<PatchModel>::empty(),
    decreases j,
{
    if j > 0 {
        lemma_listeners_self(l, p, j - 1);
        if last_for_event(l, j - 1) {
            lemma_handler_last(l, j - 1, l.len() as int);
        }
        lemma_handler_some(l, j - 1, l.len() as int);
        assert(set_listeners(l, l, p, j) =~= Seq::<PatchModel>::empty());
        assert(remove_listeners(l, l, p, j) =~= Seq::<PatchModel>::empty());
    }
}

proof fn lemma_first_key_at(s: Seq<NodeModel>, k: Seq<char>, j: int, i: int)
    requires
        0 <= i <= j < s.len(),
        key_of(s[j]) == Some(k),
        forall|t: int| 0 <= t < j ==> key_of(#[trigger] s[t]) != Some(k),
    ensures
        first_key_from(s, k, i) == j,
    decreases j - i,
{
    if i < j {
        lemma_first_key_at(s, k, j, i + 1);
    }
}

/// In a list with distinct keys, diffed against itself, each child is
/// matched with itself.
proof fn lemma_matched_self(s: Seq<NodeModel>, j: int)
    requires
        all_keyed(s),
        sibling_keys_distinct(s),
        0 <= j < s.len(),
    ensures
        new_matched(s, s, j),
        partner(s, s, j) == j,
{
    let k = key_or_empty(s[j]);
    assert(key_of(s[j]) is Some);
    assert(key_of(s[j]) == Some(k));
    assert forall|t: int| 0 <= t < j implies key_of(#[trigger] s[t]) != Some(k) by {
        assert(key_of(s[t]) is Some);
    }
    assert(!key_seen_before(s, k, j));
    lemma_first_key_at(s, k, j, 0);
}

proof fn lemma_news_self(s: Seq<NodeModel>, j: int)
    requires
        all_keyed(s),
        sibling_keys_distinct(s),
        0 <= j <= s.len(),
    ensures
        matched_news(s, s, j) == Seq::new(j as nat, |i: int| i),
    decreases j,
{
    if j > 0 {
        lemma_news_self(s, j - 1);
        lemma_matched_self(s, j - 1);
        assert(matched_news(s, s, j) =~= Seq::new(j as nat, |i: int| i));
    }
}

/// Against itself every child stays: the partners are `0..n`, whose
/// longest increasing run is all of it.
proof fn lemma_all_stay(s: Seq<NodeModel>, r: int)
    requires
        all_keyed(s),
        sibling_keys_distinct(s),
        s.len() <= usize::MAX,
        0 <= r < s.len(),
    ensures
        partner_seq(s, s).len() == s.len(),
        stays(s, s, r),
{
    let n = s.len() as int;
    lemma_news_self(s, n);
    let ps = partner_seq(s, s);
    assert forall|i: int| 0 <= i < n implies #[trigger] ps[i] == i as usize by {
        lemma_matched_self(s, i);
    }
    let all = Seq::new(n as nat, |i: int| i as usize);
    assert(increasing_run(ps, all));
    lemma_lis_longest(ps, all);
    lemma_lis_run(ps);
    let l = lis_s(ps);
    let li = l.map_values(|x: usize| x as int);
    assert forall|a: int, b: int| 0 <= a < b < li.len() implies #[trigger] li[a] < #[trigger] li[b] by {
        assert(l[a] < l[b]);
    }
    assert forall|a: int| 0 <= a < li.len() implies 0 <= #[trigger] li[a] < n by {
        assert(l[a] < ps.len());
    }
    if li.len() > n {
        lemma_low(li, n);
    }
    lemma_fills_seq(li, n);
    assert(li[r] == r);
    assert(l[r] == r as usize);
}

/// An increasing list of `m` values in `0..m` is `0..m`.
proof fn lemma_fills_seq(s: Seq<int>, m: int)
    requires
        s.len() == m,
        forall|a: int| 0 <= a < s.len() ==> 0 <= #[trigger] s[a] < m,
        forall|a: int, b: int| 0 <= a < b < s.len() ==> #[trigger] s[a] < #[trigger] s[b],
    ensures
        forall|a: int| 0 <= a < s.len() ==> #[trigger] s[a] == a,
{
    assert forall|a: int| 0 <= a < s.len() implies #[trigger] s[a] >= a by {
        lemma_low(s, a);
    }
    assert forall|a: int| 0 <= a < s.len() implies #[trigger] s[a] <= a by {
        lemma_high(s, m, a);
    }
}

proof fn lemma_low(s: Seq<int>, a: int)
    requires
        0 <= a < s.len(),
        forall|x: int| 0 <= x < s.len() ==> 0 <= #[trigger] s[x],
        forall|x: int, y: int| 0 <= x < y < s.len() ==> #[trigger] s[x] < #[trigger] s[y],
    ensures
        s[a] >= a,
    decreases a,
{
    if a > 0 {
        lemma_low(s, a - 1);
        assert(s[a - 1] < s[a]);
    }
}

proof fn lemma_high(s: Seq<int>, m: int, a: int)
    requires
        s.len() == m,
        0 <= a < s.len(),
        forall|x: int| 0 <= x < s.len() ==> #[trigger] s[x] < m,
        forall|x: int, y: int| 0 <= x < y < s.len() ==> #[trigger] s[x] < #[trigger] s[y],
    ensures
        s[a] <= a,
    decreases m - a,
{
    if a < m - 1 {
        lemma_high(s, m, a + 1);
        assert(s[a] < s[a + 1]);
    }
}

proof fn lemma_place_self(s: Seq<NodeModel>, np: Seq<usize>, r: int, j: int)
    requires
        all_keyed(s),
        sibling_keys_distinct(s),
        s.len() <= usize::MAX,
        0 <= r <= s.len(),
        0 <= j <= s.len(),
    ensures
        keyed_moves(s, s, np, r) == Seq::<PatchModel>::empty(),
        keyed_creates(s, s, np, j) == Seq::<PatchModel>::empty(),
    decreases r + j,
{
    if r > 0 {
        lemma_place_self(s, np, r - 1, j);
        lemma_all_stay(s, r - 1);
        assert(keyed_moves(s, s, np, r) =~= Seq::<PatchModel>::empty());
    }
    if j > 0 {
        lemma_place_self(s, np, 0, j - 1);
        lemma_matched_self(s, j - 1);
        assert(keyed_creates(s, s, np, j) =~= Seq::<PatchModel>::empty());
    }
}

proof fn lemma_removes_self(s: Seq<NodeModel>, op: Seq<usize>, i: int)
    requires
        all_keyed(s),
        sibling_keys_distinct(s),
        0 <= i <= s.len(),
    ensures
        keyed_removes(s, s, op, i) == Seq::<PatchModel>::empty(),
    decreases i,
{
    if i > 0 {
        lemma_removes_self(s, op, i - 1);
        lemma_matched_self(s, i - 1);
        assert(old_matched(s, s, i - 1));
        assert(keyed_removes(s, s, op, i) =~= Seq::<PatchModel>::empty());
    }
}

proof fn lemma_pairs_self(s: Seq<NodeModel>, op: Seq<usize>, np: Seq<usize>, j: int)
    requires
        all_keyed(s),
        sibling_keys_distinct(s),
        keys_distinct_each(s, s.len() as int),
        0 <= j <= s.len(),
    ensures
        keyed_pairs(s, s, op, np, j) == Seq::<PatchModel>::empty(),
    decreases s, j,
{
    if j > 0 {
        lemma_pairs_self(s, op, np, j - 1);
        lemma_matched_self(s, j - 1);
        lemma_each_at(s, s.len() as int, j - 1);
        lemma_diff_self(s[j - 1], op.push((j - 1) as usize), np.push((j - 1) as usize));
        assert(keyed_pairs(s, s, op, np, j) =~= Seq::<PatchModel>::empty());
    }
}

proof fn lemma_positional_self(s: Seq<NodeModel>, op: Seq<usize>, np: Seq<usize>, k: int)
    requires
        keys_distinct_each(s, s.len() as int),
        0 <= k <= s.len(),
    ensures
        positional_pairs(s, s, op, np, k) == Seq::<PatchModel>::empty(),
    decreases s, k,
{
    if k > 0 {
        lemma_positional_self(s, op, np, k - 1);
        lemma_each_at(s, s.len() as int, k - 1);
        lemma_diff_self(s[k - 1], op.push((k - 1) as usize), np.push((k - 1) as usize));
        assert(positional_pairs(s, s, op, np, k) =~= Seq::<PatchModel>::empty());
    }
}

proof fn lemma_children_self(s: Seq<NodeModel>, op: Seq<usize>, np: Seq<usize>)
    requires
        sibling_keys_distinct(s),
        keys_distinct_each(s, s.len() as int),
    ensures
        diff_children_s(s, s, op, np) == Seq::<PatchModel>::empty(),
    decreases s, s.len() + 1,
{
    if s.len() == 0 {
    } else if all_keyed(s) {
        lemma_all_stay(s, 0);
        lemma_place_self(s, np, s.len() as int, s.len() as int);
        lemma_removes_self(s, op, s.len() as int);
        lemma_pairs_self(s, op, np, s.len() as int);
        assert(diff_children_s(s, s, op, np) =~= Seq::<PatchModel>::empty());
    } else {
        lemma_positional_self(s, op, np, s.len() as int);
        assert(tail_removes(op, s.len() as int, s.len() as int) =~= Seq::<PatchModel>::empty());
        assert(tail_creates(s, np, s.len() as int, s.len() as int) =~= Seq::<PatchModel>::empty());
        assert(diff_children_s(s, s, op, np) =~= Seq::<PatchModel>::empty());
    }
}

proof fn lemma_diff_self(x: NodeModel, op: Seq<usize>, np: Seq<usize>)
    requires
        keys_distinct_tree(x),
    ensures
        diff_node_s(x, x, op, np) == Seq::<PatchModel>::empty(),
    decreases x, 0int,
{
    match x {
        NodeModel::Component(c) => {
            lemma_diff_self(*c.rendered, op, np);
        },
        NodeModel::Element(e) => {
            lemma_listeners_self(e.listeners, np, e.listeners.len() as int);
            lemma_children_self(e.children, op, np);
            assert(diff_attrs_s(e.attrs, e.attrs, np) =~= Seq::<PatchModel>::empty());
            assert(diff_listeners_s(e.listeners, e.listeners, np) =~= Seq::<PatchModel>::empty());
            assert(diff_node_s(x, x, op, np) =~= Seq::<PatchModel>::empty());
        },
        NodeModel::Fragment(c) => {
            lemma_children_self(c, op, np);
        },
        _ => {},
    }
}

/// A tree diffed against itself needs no patches, wherever siblings that
/// all carry keys carry distinct keys, at every level.
pub proof fn law_diff_self_is_empty(x: NodeModel)
    requires
        keys_distinct_tree(x),
    ensures
        diff_node_s(x, x, Seq::empty(), Seq::empty()) == Seq::<PatchModel>::empty(),
{
    lemma_diff_self(x, Seq::empty(), Seq::empty());
}

} // verus!
