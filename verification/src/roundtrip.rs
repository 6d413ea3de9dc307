//! What applying the diff of two trees gives back.
use vstd::prelude::*;
use crate::model::{NodeModel, AttrModel, ElementModel, CompModel};
use crate::vnode::key_of;
use crate::patch::{PatchModel, path_of};
use crate::diff::{
    first_key_from, new_matched, partner, old_matched, key_or_empty, key_seen_before,
    diff_node_s, diff_attrs_s, diff_listeners_s, diff_children_s, positional_pairs, all_keyed,
    set_attrs, remove_attrs, has_attr_named, set_listeners, remove_listeners, handler_before,
    last_for_event, handler_for, tail_removes, tail_creates, keyed_removes, keyed_pairs, keyed_moves,
    keyed_creates, partner_seq, matched_news, stays, pos_of, olds_between, rank_of, start_ranks, move_to, rank_state,
    lemma_matched_news, lis_s, increasing_run, lemma_lis_run, lemma_lis_longest,
};
use crate::renderer::{
    apply_s, apply_rest_s, apply_removes_s, remove_paths, sort_desc, edit_at_s, edit_here_s,
    set_attr_s, without_attr, elem_with_attrs, elem_with_children,
    set_listener_s, first_listener_from, without_listener, elem_with_listeners, path_less,
    path_less_from, insert_desc, kids_of, put_kids, move_in_s, min_usize, comp_with_rendered,
};

verus! {

// ---------------------------------------------------------------------------
// Patches applied in sequence
// ---------------------------------------------------------------------------

/// The patches other than removals applied one after another to a node
/// whose own path has length `k` (each patch navigates from index `k` of its
/// path), as the applier applies them once the removals are done.
pub open spec fn run_at(n: NodeModel, ps: Seq<PatchModel>, k: int) -> Result<NodeModel, Seq<char>>
    decreases ps.len(),
{
    if ps.len() == 0 {
        Ok(n)
    } else {
        match run_at(n, ps.drop_last(), k) {
            Ok(m) => if ps.last() is Remove {
                Ok(m)
            } else {
                edit_at_s(m, path_of(ps.last()), k, ps.last())
            },
            Err(e) => Err(e),
        }
    }
}

/// Every patch other than a removal addresses a node at or below `p`.
pub open spec fn under(ps: Seq<PatchModel>, p: Seq<usize>) -> bool {
    forall|i: int|
        0 <= i < ps.len() && !(ps[i] is Remove) ==> p.len() <= path_of(#[trigger] ps[i]).len() && path_of(
            ps[i],
        ).subrange(0, p.len() as int) == p
}

/// No patch is a removal.
pub open spec fn no_removes(ps: Seq<PatchModel>) -> bool {
    forall|i: int| 0 <= i < ps.len() ==> !(#[trigger] ps[i] is Remove)
}

proof fn lemma_run_concat(n: NodeModel, a: Seq<PatchModel>, b: Seq<PatchModel>, k: int)
    ensures
        run_at(n, a + b, k) == match run_at(n, a, k) {
            Ok(m) => run_at(m, b, k),
            Err(e) => Err(e),
        },
    decreases b.len(),
{
    if b.len() == 0 {
        assert(a + b =~= a);
    } else {
        assert((a + b).drop_last() =~= a + b.drop_last());
        lemma_run_concat(n, a, b.drop_last(), k);
    }
}

proof fn lemma_under_concat(a: Seq<PatchModel>, b: Seq<PatchModel>, p: Seq<usize>)
    requires
        under(a, p),
        under(b, p),
        no_removes(a),
        no_removes(b),
    ensures
        under(a + b, p),
        no_removes(a + b),
{
    lemma_under_concat_any(a, b, p);
    assert forall|i: int| 0 <= i < (a + b).len() implies !(#[trigger] (a + b)[i] is Remove) by {
        if i < a.len() {
            assert((a + b)[i] == a[i]);
        } else {
            assert((a + b)[i] == b[i - a.len()]);
        }
    }
}

proof fn lemma_under_push(ps: Seq<PatchModel>, p: Seq<usize>, i: usize)
    requires
        under(ps, p.push(i)),
    ensures
        under(ps, p),
        forall|j: int|
            0 <= j < ps.len() && !(ps[j] is Remove) ==> p.len() < path_of(#[trigger] ps[j]).len() && path_of(
                ps[j],
            )[p.len() as int] == i,
{
    assert forall|j: int| 0 <= j < ps.len() && !(ps[j] is Remove) implies p.len() <= path_of(
        #[trigger] ps[j],
    ).len() && path_of(ps[j]).subrange(0, p.len() as int) == p && p.len() < path_of(ps[j]).len() && path_of(
        ps[j],
    )[p.len() as int] == i by {
        let q = path_of(ps[j]);
        assert(q.subrange(0, p.len() as int + 1) == p.push(i));
        assert(q.subrange(0, p.len() as int) =~= q.subrange(0, p.len() as int + 1).drop_last());
        assert(q[p.len() as int] == q.subrange(0, p.len() as int + 1)[p.len() as int]);
    }
}

/// Applying patches that all address child `i` of an element edits that
/// child alone.
#[verifier::spinoff_prover]
#[verifier::rlimit(40)]
proof fn lemma_descend_elem(e: ElementModel, ps: Seq<PatchModel>, k: int, i: int)
    requires
        0 <= k,
        0 <= i < e.children.len(),
        forall|j: int|
            0 <= j < ps.len() && !(ps[j] is Remove) ==> k < path_of(#[trigger] ps[j]).len() && path_of(ps[j])[k]
                == i,
    ensures
        run_at(NodeModel::Element(e), ps, k) == match run_at(e.children[i], ps, k + 1) {
            Ok(c) => Ok(NodeModel::Element(elem_with_children(e, e.children.update(i, c)))),
            Err(m) => Err(m),
        },
    decreases ps.len(),
{
    if ps.len() > 0 {
        assert forall|j: int| 0 <= j < ps.drop_last().len() && !(ps.drop_last()[j] is Remove) implies k < path_of(
            #[trigger] ps.drop_last()[j],
        ).len() && path_of(ps.drop_last()[j])[k] == i by {
            assert(ps.drop_last()[j] == ps[j]);
        }
        lemma_descend_elem(e, ps.drop_last(), k, i);
        let last = ps[ps.len() - 1];
        assert(last is Remove || (k < path_of(last).len() && path_of(last)[k] == i));
        match run_at(e.children[i], ps.drop_last(), k + 1) {
            Ok(c) => {
                let e2 = elem_with_children(e, e.children.update(i, c));
                assert(e2.children[i] == c);
                if last is Remove {
                    return;
                }
                let nav = path_of(last);
                assert(nav[k] as int == i);
                assert(edit_at_s(NodeModel::Element(e2), nav, k, last) == match edit_at_s(c, nav, k + 1, last) {
                    Ok(r) => Ok(NodeModel::Element(elem_with_children(e2, e2.children.update(i, r)))),
                    Err(m) => Err(m),
                });
                match edit_at_s(c, path_of(last), k + 1, last) {
                    Ok(r) => {
                        assert(e2.children.update(i, r) =~= e.children.update(i, r));
                        assert(elem_with_children(e2, e2.children.update(i, r)) == elem_with_children(e, e.children.update(i, r)));
                    },
                    Err(m) => {},
                }
            },
            Err(m) => {},
        }
    } else {
        assert(e.children.update(i, e.children[i]) =~= e.children);
        assert(elem_with_children(e, e.children.update(i, e.children[i])) == e);
    }
}

/// Applying patches that all address child `i` of a fragment edits that
/// child alone.
proof fn lemma_descend_frag(c: Seq<NodeModel>, ps: Seq<PatchModel>, k: int, i: int)
    requires
        0 <= k,
        0 <= i < c.len(),
        forall|j: int|
            0 <= j < ps.len() && !(ps[j] is Remove) ==> k < path_of(#[trigger] ps[j]).len() && path_of(ps[j])[k]
                == i,
    ensures
        run_at(NodeModel::Fragment(c), ps, k) == match run_at(c[i], ps, k + 1) {
            Ok(x) => Ok(NodeModel::Fragment(c.update(i, x))),
            Err(m) => Err(m),
        },
    decreases ps.len(),
{
    if ps.len() > 0 {
        assert forall|j: int| 0 <= j < ps.drop_last().len() && !(ps.drop_last()[j] is Remove) implies k < path_of(
            #[trigger] ps.drop_last()[j],
        ).len() && path_of(ps.drop_last()[j])[k] == i by {
            assert(ps.drop_last()[j] == ps[j]);
        }
        lemma_descend_frag(c, ps.drop_last(), k, i);
        let last = ps[ps.len() - 1];
        assert(last is Remove || (k < path_of(last).len() && path_of(last)[k] == i));
        match run_at(c[i], ps.drop_last(), k + 1) {
            Ok(x) => {
                let c2 = c.update(i, x);
                assert(c2[i] == x);
                if last is Remove {
                    return;
                }
                match edit_at_s(x, path_of(last), k + 1, last) {
                    Ok(r) => {
                        assert(c2.update(i, r) =~= c.update(i, r));
                    },
                    Err(m) => {},
                }
            },
            Err(m) => {},
        }
    } else {
        assert(c.update(i, c[i]) =~= c);
    }
}


// ---------------------------------------------------------------------------
// Attribute and listener patches
// ---------------------------------------------------------------------------

/// No name occurs twice in the attribute list.
pub open spec fn distinct_names(s: Seq<AttrModel>) -> bool {
    forall|i: int, j: int| 0 <= i < j < s.len() ==> (#[trigger] s[i]).name != (#[trigger] s[j]).name
}

pub open spec fn min_len(a: int, b: int) -> int {
    if a < b {
        a
    } else {
        b
    }
}

proof fn lemma_without_concat(a: Seq<AttrModel>, b: Seq<AttrModel>, x: Seq<char>)
    ensures
        without_attr(a + b, x) == without_attr(a, x) + without_attr(b, x),
    decreases b.len(),
{
    if b.len() == 0 {
        assert(a + b =~= a);
        assert(without_attr(a, x) + without_attr(b, x) =~= without_attr(a, x));
    } else {
        assert((a + b).drop_last() =~= a + b.drop_last());
        lemma_without_concat(a, b.drop_last(), x);
        assert(without_attr(a + b, x) =~= without_attr(a, x) + without_attr(b, x));
    }
}

proof fn lemma_without_absent(s: Seq<AttrModel>, x: Seq<char>)
    requires
        forall|t: int| 0 <= t < s.len() ==> (#[trigger] s[t]).name != x,
    ensures
        without_attr(s, x) == s,
    decreases s.len(),
{
    if s.len() > 0 {
        assert forall|t: int| 0 <= t < s.drop_last().len() implies (#[trigger] s.drop_last()[t]).name != x by {
            assert(s.drop_last()[t] == s[t]);
        }
        lemma_without_absent(s.drop_last(), x);
        assert(s.drop_last() + seq![s.last()] =~= s);
    }
}

/// The attributes of `s` whose names none of `ns` carries, in order.
pub open spec fn without_names(s: Seq<AttrModel>, ns: Seq<AttrModel>) -> Seq<AttrModel>
    decreases ns.len(),
{
    if ns.len() == 0 {
        s
    } else {
        without_attr(without_names(s, ns.drop_last()), ns.last().name)
    }
}

/// The old attributes among the first `k` whose names the new list lacks:
/// those the diff removes, in old order.
pub open spec fn gone_attrs(oa: Seq<AttrModel>, na: Seq<AttrModel>, k: int) -> Seq<AttrModel>
    decreases k,
{
    if k <= 0 || k > oa.len() {
        Seq::empty()
    } else {
        gone_attrs(oa, na, k - 1) + if has_attr_named(na, oa[k - 1].name) {
            Seq::empty()
        } else {
            seq![oa[k - 1]]
        }
    }
}

proof fn lemma_without_attr_elem(s: Seq<AttrModel>, x: Seq<char>)
    ensures
        forall|t: int|
            0 <= t < without_attr(s, x).len() ==> (#[trigger] without_attr(s, x)[t]).name != x && exists|u: int|
                0 <= u < s.len() && s[u] == without_attr(s, x)[t],
    decreases s.len(),
{
    if s.len() > 0 {
        lemma_without_attr_elem(s.drop_last(), x);
        let a = without_attr(s.drop_last(), x);
        let r = without_attr(s, x);
        assert forall|t: int| 0 <= t < r.len() implies (#[trigger] r[t]).name != x && exists|u: int|
            0 <= u < s.len() && s[u] == r[t] by {
            if t < a.len() {
                assert(r[t] == a[t]);
                let u = choose|u: int| 0 <= u < s.drop_last().len() && s.drop_last()[u] == a[t];
                assert(s[u] == s.drop_last()[u]);
            } else {
                assert(r[t] == s.last());
                assert(s[s.len() - 1] == s.last());
            }
        }
    }
}

/// What is left by `without_names` comes from `s` and carries none of the
/// names of `ns`.
proof fn lemma_without_names_elem(s: Seq<AttrModel>, ns: Seq<AttrModel>)
    ensures
        forall|t: int|
            0 <= t < without_names(s, ns).len() ==> (exists|u: int|
                0 <= u < s.len() && s[u] == #[trigger] without_names(s, ns)[t]) && forall|v: int|
                0 <= v < ns.len() ==> (#[trigger] ns[v]).name != without_names(s, ns)[t].name,
    decreases ns.len(),
{
    if ns.len() > 0 {
        lemma_without_names_elem(s, ns.drop_last());
        let a = without_names(s, ns.drop_last());
        let r = without_names(s, ns);
        lemma_without_attr_elem(a, ns.last().name);
        assert forall|t: int| 0 <= t < r.len() implies (exists|u: int| 0 <= u < s.len() && s[u] == #[trigger] r[t])
            && forall|v: int| 0 <= v < ns.len() ==> (#[trigger] ns[v]).name != r[t].name by {
            let w = choose|w: int| 0 <= w < a.len() && a[w] == r[t];
            let u = choose|u: int| 0 <= u < s.len() && s[u] == a[w];
            assert(s[u] == r[t]);
            assert forall|v: int| 0 <= v < ns.len() implies (#[trigger] ns[v]).name != r[t].name by {
                if v < ns.len() - 1 {
                    assert(ns[v] == ns.drop_last()[v]);
                } else {
                    assert(ns[v] == ns.last());
                }
            }
        }
    }
}

proof fn lemma_gone_has(oa: Seq<AttrModel>, na: Seq<AttrModel>, k: int, u: int)
    requires
        0 <= u < k <= oa.len(),
        !has_attr_named(na, oa[u].name),
    ensures
        exists|v: int| 0 <= v < gone_attrs(oa, na, k).len() && (#[trigger] gone_attrs(oa, na, k)[v]).name == oa[u].name,
    decreases k,
{
    let g = gone_attrs(oa, na, k);
    if u < k - 1 {
        lemma_gone_has(oa, na, k - 1, u);
        let g0 = gone_attrs(oa, na, k - 1);
        let v = choose|v: int| 0 <= v < g0.len() && (#[trigger] g0[v]).name == oa[u].name;
        assert(g[v] == g0[v]);
    } else {
        assert(g[g.len() - 1] == oa[u]);
    }
}

/// Setting the new attributes one after another takes each name out and
/// appends it: after the first `j`, the old attributes without those names,
/// then those `j` in order.
#[verifier::spinoff_prover]
#[verifier::rlimit(60)]
proof fn lemma_set_attrs_run(e: ElementModel, na: Seq<AttrModel>, p: Seq<usize>, j: int)
    requires
        distinct_names(na),
        0 <= j <= na.len(),
    ensures
        run_at(NodeModel::Element(e), set_attrs(na, p).take(j), p.len() as int) == Ok::<NodeModel, Seq<char>>(
            NodeModel::Element(elem_with_attrs(e, without_names(e.attrs, na.take(j)) + na.take(j))),
        ),
    decreases j,
{
    let oa = e.attrs;
    if j == 0 {
        assert(set_attrs(na, p).take(0) =~= Seq::<PatchModel>::empty());
        assert(without_names(oa, na.take(0)) == oa);
        assert(oa + na.take(0) =~= oa);
        assert(elem_with_attrs(e, oa) == e);
    } else {
        lemma_set_attrs_run(e, na, p, j - 1);
        let ps = set_attrs(na, p).take(j);
        assert(ps.drop_last() =~= set_attrs(na, p).take(j - 1));
        let x = na[j - 1];
        assert(ps.last() == PatchModel::SetAttr { path: p, name: x.name, value: x.value });
        let w = without_names(oa, na.take(j - 1));
        let s = w + na.take(j - 1);
        assert(na.take(j).drop_last() =~= na.take(j - 1));
        assert(na.take(j).last() == x);
        assert(without_names(oa, na.take(j)) == without_attr(w, x.name));
        lemma_without_concat(w, na.take(j - 1), x.name);
        assert forall|t: int| 0 <= t < na.take(j - 1).len() implies (#[trigger] na.take(j - 1)[t]).name != x.name by {
            assert(na.take(j - 1)[t] == na[t]);
        }
        lemma_without_absent(na.take(j - 1), x.name);
        assert(set_attr_s(s, x.name, x.value) =~= without_attr(w, x.name) + na.take(j));
    }
}

/// The attribute removals, over the first `k` old attributes, applied after
/// the new attributes are set: the names the new list lacks go, the new
/// attributes stay.
#[verifier::spinoff_prover]
#[verifier::rlimit(60)]
proof fn lemma_remove_attrs_run(e: ElementModel, oa: Seq<AttrModel>, na: Seq<AttrModel>, p: Seq<usize>, k: int)
    requires
        0 <= k <= oa.len(),
        e.attrs == without_names(oa, na) + na,
    ensures
        run_at(NodeModel::Element(e), remove_attrs(oa.take(k), na, p), p.len() as int) == Ok::<NodeModel, Seq<char>>(
            NodeModel::Element(elem_with_attrs(e, without_names(without_names(oa, na), gone_attrs(oa, na, k)) + na)),
        ),
        under(remove_attrs(oa.take(k), na, p), p),
        no_removes(remove_attrs(oa.take(k), na, p)),
    decreases k,
{
    let w = without_names(oa, na);
    if k == 0 {
        assert(oa.take(0) =~= Seq::<AttrModel>::empty());
        assert(gone_attrs(oa, na, 0) =~= Seq::<AttrModel>::empty());
        assert(without_names(w, gone_attrs(oa, na, 0)) == w);
        assert(elem_with_attrs(e, e.attrs) == e);
    } else {
        lemma_remove_attrs_run(e, oa, na, p, k - 1);
        let prev = remove_attrs(oa.take(k - 1), na, p);
        assert(oa.take(k).drop_last() =~= oa.take(k - 1));
        assert(oa.take(k).last() == oa[k - 1]);
        let x = oa[k - 1].name;
        let g0 = gone_attrs(oa, na, k - 1);
        let cur = without_names(w, g0) + na;
        if has_attr_named(na, x) {
            assert(remove_attrs(oa.take(k), na, p) =~= prev);
            assert(gone_attrs(oa, na, k) =~= g0);
        } else {
            let rm = PatchModel::RemoveAttr { path: p, name: x };
            assert(remove_attrs(oa.take(k), na, p) == prev + seq![rm]);
            lemma_single(NodeModel::Element(elem_with_attrs(e, cur)), rm, p);
            lemma_run_concat(NodeModel::Element(e), prev, seq![rm], p.len() as int);
            lemma_under_concat(prev, seq![rm], p);
            let g = gone_attrs(oa, na, k);
            assert(g == g0 + seq![oa[k - 1]]);
            assert(g.drop_last() =~= g0);
            assert(without_names(w, g) == without_attr(without_names(w, g0), x));
            lemma_without_concat(without_names(w, g0), na, x);
            assert forall|t: int| 0 <= t < na.len() implies (#[trigger] na[t]).name != x by {}
            lemma_without_absent(na, x);
            assert(without_attr(cur, x) =~= without_names(w, g) + na);
            assert(elem_with_attrs(elem_with_attrs(e, cur), without_names(w, g) + na) == elem_with_attrs(
                e,
                without_names(w, g) + na,
            ));
        }
    }
}

/// Nothing is left of the old attributes once the names the new list
/// carries and those it lacks are taken out.
proof fn lemma_all_gone(oa: Seq<AttrModel>, na: Seq<AttrModel>)
    ensures
        without_names(without_names(oa, na), gone_attrs(oa, na, oa.len() as int)) == Seq::<AttrModel>::empty(),
{
    let w = without_names(oa, na);
    let g = gone_attrs(oa, na, oa.len() as int);
    let r = without_names(w, g);
    lemma_without_names_elem(oa, na);
    lemma_without_names_elem(w, g);
    if r.len() > 0 {
        let u1 = choose|u: int| 0 <= u < w.len() && w[u] == #[trigger] r[0];
        let u = choose|u: int| 0 <= u < oa.len() && oa[u] == #[trigger] w[u1];
        assert forall|v: int| 0 <= v < na.len() implies (#[trigger] na[v]).name != oa[u].name by {}
        assert(!has_attr_named(na, oa[u].name));
        lemma_gone_has(oa, na, oa.len() as int, u);
        let v = choose|v: int| 0 <= v < g.len() && (#[trigger] g[v]).name == oa[u].name;
        assert(g[v].name != r[0].name);
        assert(false);
    }
    assert(r =~= Seq::<AttrModel>::empty());
}

/// The attribute patches between equal lists, or towards a list without a
/// name twice, turn the old element's attributes into the new ones.
#[verifier::spinoff_prover]
#[verifier::rlimit(40)]
proof fn lemma_attrs_run(e: ElementModel, na: Seq<AttrModel>, p: Seq<usize>)
    requires
        e.attrs == na || distinct_names(na),
    ensures
        run_at(NodeModel::Element(e), diff_attrs_s(e.attrs, na, p), p.len() as int) == Ok::<NodeModel, Seq<char>>(
            NodeModel::Element(elem_with_attrs(e, na)),
        ),
        under(diff_attrs_s(e.attrs, na, p), p),
        no_removes(diff_attrs_s(e.attrs, na, p)),
{
    let oa = e.attrs;
    let k = p.len() as int;
    if oa == na {
        assert(elem_with_attrs(e, na) == e);
    } else {
        let sets = set_attrs(na, p);
        let rems = remove_attrs(oa, na, p);
        assert(diff_attrs_s(oa, na, p) == sets + rems);
        lemma_set_attrs_run(e, na, p, na.len() as int);
        assert(sets.take(na.len() as int) =~= sets);
        assert(na.take(na.len() as int) =~= na);
        let mid = without_names(oa, na) + na;
        let e1 = elem_with_attrs(e, mid);
        assert forall|i: int| 0 <= i < sets.len() implies path_of(#[trigger] sets[i]).subrange(0, p.len() as int)
            == p && !(sets[i] is Remove) by {
            assert(path_of(sets[i]) == p);
            assert(p.subrange(0, p.len() as int) =~= p);
        }
        lemma_run_concat(NodeModel::Element(e), sets, rems, k);
        lemma_remove_attrs_run(e1, oa, na, p, oa.len() as int);
        assert(oa.take(oa.len() as int) =~= oa);
        lemma_all_gone(oa, na);
        assert(Seq::<AttrModel>::empty() + na =~= na);
        assert(elem_with_attrs(e1, na) == elem_with_attrs(e, na));
        lemma_under_concat(sets, rems, p);
    }
}

proof fn lemma_handler_last(ls: Seq<(Seq<char>, Seq<char>)>, j: int, k: int)
    requires
        0 <= j < k <= ls.len(),
        last_for_event(ls, j),
    ensures
        handler_before(ls, ls[j].0, k) == Some(ls[j].1),
    decreases k,
{
    if k - 1 > j {
        assert(ls[k - 1].0 != ls[j].0);
        lemma_handler_last(ls, j, k - 1);
    }
}

/// Equal listener lists give no listener patches.
proof fn lemma_same_listeners(ls: Seq<(Seq<char>, Seq<char>)>, p: Seq<usize>, j: int)
    requires
        0 <= j <= ls.len(),
    ensures
        set_listeners(ls, ls, p, j) == Seq::<PatchModel>::empty(),
        remove_listeners(ls, ls, p, j) == Seq::<PatchModel>::empty(),
    decreases j,
{
    if j > 0 {
        lemma_same_listeners(ls, p, j - 1);
        if last_for_event(ls, j - 1) {
            lemma_handler_last(ls, j - 1, ls.len() as int);
        }
        assert(Seq::<PatchModel>::empty() + Seq::<PatchModel>::empty() =~= Seq::<PatchModel>::empty());
    }
}

/// No event is bound twice in the listener list.
pub open spec fn distinct_events(s: Seq<(Seq<char>, Seq<char>)>) -> bool {
    forall|i: int, j: int| 0 <= i < j < s.len() ==> (#[trigger] s[i]).0 != (#[trigger] s[j]).0
}

/// Some listener of the list is bound to `ev`.
pub open spec fn has_event(s: Seq<(Seq<char>, Seq<char>)>, ev: Seq<char>) -> bool {
    exists|j: int| 0 <= j < s.len() && (#[trigger] s[j]).0 == ev
}

/// The old listeners among the first `k` whose event the new list binds,
/// in old order, each with its new handler.
pub open spec fn kept_listeners(ol: Seq<(Seq<char>, Seq<char>)>, nl: Seq<(Seq<char>, Seq<char>)>, k: int) -> Seq<
    (Seq<char>, Seq<char>),
>
    decreases k,
{
    if k <= 0 || k > ol.len() {
        Seq::empty()
    } else {
        kept_listeners(ol, nl, k - 1) + if has_event(nl, ol[k - 1].0) {
            seq![(ol[k - 1].0, nl[first_listener_from(nl, ol[k - 1].0, 0)].1)]
        } else {
            Seq::empty()
        }
    }
}

/// Two listener lists, no event twice in either, where the new list is the
/// old one with handlers changed and bindings dropped, followed by bindings
/// of events the old list lacks.
pub open spec fn events_edit(ol: Seq<(Seq<char>, Seq<char>)>, nl: Seq<(Seq<char>, Seq<char>)>) -> bool {
    let kept = kept_listeners(ol, nl, ol.len() as int);
    &&& distinct_events(ol)
    &&& distinct_events(nl)
    &&& kept.len() <= nl.len()
    &&& nl.take(kept.len() as int) == kept
    &&& forall|i: int| kept.len() <= i < nl.len() ==> !has_event(ol, (#[trigger] nl[i]).0)
}

/// The old listeners once the handlers of the first `j` new bindings are
/// set.
pub open spec fn upd_listeners(ol: Seq<(Seq<char>, Seq<char>)>, nl: Seq<(Seq<char>, Seq<char>)>, j: int) -> Seq<
    (Seq<char>, Seq<char>),
> {
    Seq::new(
        ol.len(),
        |t: int|
            if has_event(nl.take(j), ol[t].0) {
                (ol[t].0, nl[first_listener_from(nl, ol[t].0, 0)].1)
            } else {
                ol[t]
            },
    )
}

proof fn lemma_handler_none(ls: Seq<(Seq<char>, Seq<char>)>, ev: Seq<char>, k: int)
    requires
        0 <= k <= ls.len(),
        forall|t: int| 0 <= t < ls.len() ==> (#[trigger] ls[t]).0 != ev,
    ensures
        handler_before(ls, ev, k) is None,
    decreases k,
{
    if k > 0 {
        lemma_handler_none(ls, ev, k - 1);
    }
}

proof fn lemma_first_listener(s: Seq<(Seq<char>, Seq<char>)>, ev: Seq<char>, j: int, i: int)
    requires
        0 <= i <= j < s.len(),
        s[j].0 == ev,
        forall|t: int| 0 <= t < j ==> (#[trigger] s[t]).0 != ev,
    ensures
        first_listener_from(s, ev, i) == j,
    decreases j - i,
{
    if i < j {
        lemma_first_listener(s, ev, j, i + 1);
    }
}

proof fn lemma_first_listener_none(s: Seq<(Seq<char>, Seq<char>)>, ev: Seq<char>, i: int)
    requires
        0 <= i <= s.len(),
        forall|t: int| 0 <= t < s.len() ==> (#[trigger] s[t]).0 != ev,
    ensures
        first_listener_from(s, ev, i) == -1,
    decreases s.len() - i,
{
    if i < s.len() {
        lemma_first_listener_none(s, ev, i + 1);
    }
}

proof fn lemma_first_listener_at(s: Seq<(Seq<char>, Seq<char>)>, j: int)
    requires
        distinct_events(s),
        0 <= j < s.len(),
    ensures
        first_listener_from(s, s[j].0, 0) == j,
        last_for_event(s, j),
        handler_for(s, s[j].0) == Some(s[j].1),
{
    assert forall|t: int| 0 <= t < j implies (#[trigger] s[t]).0 != s[j].0 by {}
    lemma_first_listener(s, s[j].0, j, 0);
    assert forall|t: int| j < t < s.len() implies s[t].0 != s[j].0 by {}
    lemma_handler_last(s, j, s.len() as int);
}

/// Whether a list without repeated events binds `ev`, as the handler lookup
/// sees it.
proof fn lemma_handler_has(s: Seq<(Seq<char>, Seq<char>)>, ev: Seq<char>)
    requires
        distinct_events(s),
    ensures
        (handler_for(s, ev) is None) == !has_event(s, ev),
{
    if has_event(s, ev) {
        let j = choose|j: int| 0 <= j < s.len() && (#[trigger] s[j]).0 == ev;
        lemma_first_listener_at(s, j);
    } else {
        assert forall|t: int| 0 <= t < s.len() implies (#[trigger] s[t]).0 != ev by {}
        lemma_handler_none(s, ev, s.len() as int);
    }
}

proof fn lemma_first_listener_names(
    s1: Seq<(Seq<char>, Seq<char>)>,
    s2: Seq<(Seq<char>, Seq<char>)>,
    ev: Seq<char>,
    i: int,
)
    requires
        s1.len() == s2.len(),
        forall|t: int| 0 <= t < s1.len() ==> (#[trigger] s1[t]).0 == s2[t].0,
    ensures
        first_listener_from(s1, ev, i) == first_listener_from(s2, ev, i),
    decreases s1.len() - i,
{
    if 0 <= i < s1.len() {
        lemma_first_listener_names(s1, s2, ev, i + 1);
    }
}

proof fn lemma_kept_listeners(ol: Seq<(Seq<char>, Seq<char>)>, nl: Seq<(Seq<char>, Seq<char>)>, k: int)
    requires
        0 <= k <= ol.len(),
    ensures
        kept_listeners(ol, nl, k).len() <= k,
        forall|r: int|
            0 <= r < kept_listeners(ol, nl, k).len() ==> has_event(ol.take(k), (#[trigger] kept_listeners(ol, nl, k)[r]).0),
    decreases k,
{
    if k > 0 {
        lemma_kept_listeners(ol, nl, k - 1);
        let prev = kept_listeners(ol, nl, k - 1);
        let all = kept_listeners(ol, nl, k);
        assert forall|r: int| 0 <= r < all.len() implies has_event(ol.take(k), (#[trigger] all[r]).0) by {
            if r < prev.len() {
                assert(all[r] == prev[r]);
                assert(has_event(ol.take(k - 1), prev[r].0));
                let t = choose|t: int| 0 <= t < ol.take(k - 1).len() && (#[trigger] ol.take(k - 1)[t]).0 == prev[r].0;
                assert(ol.take(k)[t] == ol.take(k - 1)[t]);
            } else {
                assert(all[r].0 == ol[k - 1].0);
                assert(ol.take(k)[k - 1] == ol[k - 1]);
            }
        }
    }
}

/// Setting the changed handlers one after another: first those of the kept
/// bindings, in place, then the added bindings, at the end.
#[verifier::spinoff_prover]
#[verifier::rlimit(60)]
proof fn lemma_set_listeners_run(e: ElementModel, nl: Seq<(Seq<char>, Seq<char>)>, p: Seq<usize>, j: int)
    requires
        events_edit(e.listeners, nl),
        0 <= j <= nl.len(),
    ensures
        run_at(NodeModel::Element(e), set_listeners(e.listeners, nl, p, j), p.len() as int) == Ok::<
            NodeModel,
            Seq<char>,
        >(
            NodeModel::Element(
                elem_with_listeners(
                    e,
                    if j <= kept_listeners(e.listeners, nl, e.listeners.len() as int).len() {
                        upd_listeners(e.listeners, nl, j)
                    } else {
                        upd_listeners(e.listeners, nl, kept_listeners(e.listeners, nl, e.listeners.len() as int).len() as int)
                            + nl.subrange(kept_listeners(e.listeners, nl, e.listeners.len() as int).len() as int, j)
                    },
                ),
            ),
        ),
        under(set_listeners(e.listeners, nl, p, j), p),
        no_removes(set_listeners(e.listeners, nl, p, j)),
    decreases j,
{
    let ol = e.listeners;
    let k = p.len() as int;
    let kept = kept_listeners(ol, nl, ol.len() as int);
    let kk = kept.len() as int;
    lemma_kept_listeners(ol, nl, ol.len() as int);
    assert(ol.take(ol.len() as int) =~= ol);
    if j == 0 {
        assert(upd_listeners(ol, nl, 0) =~= ol);
        assert(elem_with_listeners(e, ol) == e);
    } else {
        lemma_set_listeners_run(e, nl, p, j - 1);
        let t = j - 1;
        let prev = set_listeners(ol, nl, p, t);
        let x = nl[t];
        lemma_first_listener_at(nl, t);
        let sl = PatchModel::SetListener { path: p, event: x.0, handler_id: x.1 };
        if j <= kk {
            let s = upd_listeners(ol, nl, t);
            let e1 = elem_with_listeners(e, s);
            let want = upd_listeners(ol, nl, j);
            assert(x == kept[t]);
            assert(has_event(ol, x.0));
            let ts = choose|u: int| 0 <= u < ol.len() && (#[trigger] ol[u]).0 == x.0;
            lemma_first_listener_at(ol, ts);
            assert(!has_event(nl.take(t), x.0)) by {
                if has_event(nl.take(t), x.0) {
                    let w = choose|w: int| 0 <= w < nl.take(t).len() && (#[trigger] nl.take(t)[w]).0 == x.0;
                    assert(nl.take(t)[w] == nl[w]);
                }
            }
            assert(s[ts] == ol[ts]);
            assert forall|u: int| 0 <= u < ol.len() && u != ts implies (#[trigger] want[u]) == s[u] by {
                assert(ol[u].0 != x.0);
                if has_event(nl.take(j), ol[u].0) {
                    let w = choose|w: int| 0 <= w < nl.take(j).len() && (#[trigger] nl.take(j)[w]).0 == ol[u].0;
                    assert(w != t);
                    assert(nl.take(t)[w] == nl.take(j)[w]);
                }
                if has_event(nl.take(t), ol[u].0) {
                    let w = choose|w: int| 0 <= w < nl.take(t).len() && (#[trigger] nl.take(t)[w]).0 == ol[u].0;
                    assert(nl.take(t)[w] == nl.take(j)[w]);
                }
            }
            assert(nl.take(j)[t] == x);
            assert(has_event(nl.take(j), ol[ts].0));
            assert(want[ts] == (ol[ts].0, x.1));
            if ol[ts].1 == x.1 {
                assert(set_listeners(ol, nl, p, j) =~= prev);
                assert(want =~= s);
            } else {
                assert(set_listeners(ol, nl, p, j) == prev + seq![sl]);
                assert forall|u: int| 0 <= u < s.len() implies (#[trigger] s[u]).0 == ol[u].0 by {}
                lemma_first_listener_names(s, ol, x.0, 0);
                lemma_single(NodeModel::Element(e1), sl, p);
                lemma_run_concat(NodeModel::Element(e), prev, seq![sl], k);
                lemma_under_concat(prev, seq![sl], p);
                assert(set_listener_s(s, x.0, x.1) =~= want);
                assert(elem_with_listeners(e1, want) == elem_with_listeners(e, want));
            }
        } else {
            let u0 = upd_listeners(ol, nl, kk);
            let s = if t <= kk {
                upd_listeners(ol, nl, t)
            } else {
                u0 + nl.subrange(kk, t)
            };
            assert(s =~= u0 + nl.subrange(kk, t));
            let e1 = elem_with_listeners(e, s);
            let want = u0 + nl.subrange(kk, j);
            assert(!has_event(ol, x.0));
            lemma_handler_has(ol, x.0);
            assert(set_listeners(ol, nl, p, j) == prev + seq![sl]);
            assert forall|u: int| 0 <= u < s.len() implies (#[trigger] s[u]).0 != x.0 by {
                if u < u0.len() {
                    assert(s[u].0 == ol[u].0);
                } else {
                    assert(s[u] == nl[kk + u - u0.len()]);
                }
            }
            lemma_first_listener_none(s, x.0, 0);
            lemma_single(NodeModel::Element(e1), sl, p);
            lemma_run_concat(NodeModel::Element(e), prev, seq![sl], k);
            lemma_under_concat(prev, seq![sl], p);
            assert(set_listener_s(s, x.0, x.1) =~= want);
            assert(elem_with_listeners(e1, want) == elem_with_listeners(e, want));
        }
    }
}

proof fn lemma_without_listener_concat(a: Seq<(Seq<char>, Seq<char>)>, b: Seq<(Seq<char>, Seq<char>)>, ev: Seq<char>)
    ensures
        without_listener(a + b, ev) == without_listener(a, ev) + without_listener(b, ev),
    decreases b.len(),
{
    if b.len() == 0 {
        assert(a + b =~= a);
        assert(without_listener(a, ev) + without_listener(b, ev) =~= without_listener(a, ev));
    } else {
        assert((a + b).drop_last() =~= a + b.drop_last());
        lemma_without_listener_concat(a, b.drop_last(), ev);
        assert(without_listener(a + b, ev) =~= without_listener(a, ev) + without_listener(b, ev));
    }
}

proof fn lemma_without_listener_absent(s: Seq<(Seq<char>, Seq<char>)>, ev: Seq<char>)
    requires
        forall|t: int| 0 <= t < s.len() ==> (#[trigger] s[t]).0 != ev,
    ensures
        without_listener(s, ev) == s,
    decreases s.len(),
{
    if s.len() > 0 {
        assert forall|t: int| 0 <= t < s.drop_last().len() implies (#[trigger] s.drop_last()[t]).0 != ev by {
            assert(s.drop_last()[t] == s[t]);
        }
        lemma_without_listener_absent(s.drop_last(), ev);
        assert(s.drop_last() + seq![s.last()] =~= s);
    }
}

/// The listener removals over the first `k` old bindings, applied after the
/// handlers are set: the dropped bindings go, the kept ones stay in old
/// order.
#[verifier::spinoff_prover]
#[verifier::rlimit(60)]
proof fn lemma_remove_listeners_run(
    e: ElementModel,
    ol: Seq<(Seq<char>, Seq<char>)>,
    nl: Seq<(Seq<char>, Seq<char>)>,
    p: Seq<usize>,
    k: int,
)
    requires
        events_edit(ol, nl),
        0 <= k <= ol.len(),
        e.listeners == upd_listeners(ol, nl, kept_listeners(ol, nl, ol.len() as int).len() as int) + nl.skip(
            kept_listeners(ol, nl, ol.len() as int).len() as int,
        ),
    ensures
        run_at(NodeModel::Element(e), remove_listeners(ol, nl, p, k), p.len() as int) == Ok::<NodeModel, Seq<char>>(
            NodeModel::Element(
                elem_with_listeners(
                    e,
                    kept_listeners(ol, nl, k) + upd_listeners(
                        ol,
                        nl,
                        kept_listeners(ol, nl, ol.len() as int).len() as int,
                    ).skip(k) + nl.skip(kept_listeners(ol, nl, ol.len() as int).len() as int),
                ),
            ),
        ),
        under(remove_listeners(ol, nl, p, k), p),
        no_removes(remove_listeners(ol, nl, p, k)),
    decreases k,
{
    let kk = kept_listeners(ol, nl, ol.len() as int).len() as int;
    let u = upd_listeners(ol, nl, kk);
    let added = nl.skip(kk);
    lemma_kept_listeners(ol, nl, ol.len() as int);
    assert(ol.take(ol.len() as int) =~= ol);
    if k == 0 {
        assert(kept_listeners(ol, nl, 0) + u.skip(0) + added =~= e.listeners);
        assert(elem_with_listeners(e, e.listeners) == e);
    } else {
        lemma_remove_listeners_run(e, ol, nl, p, k - 1);
        lemma_kept_listeners(ol, nl, k - 1);
        let prev = remove_listeners(ol, nl, p, k - 1);
        let t = k - 1;
        let x = ol[t].0;
        let kp = kept_listeners(ol, nl, t);
        let cur = kp + u.skip(t) + added;
        lemma_first_listener_at(ol, t);
        lemma_handler_has(nl, x);
        assert(has_event(nl.take(kk), x) == has_event(nl, x)) by {
            if has_event(nl, x) {
                let w = choose|w: int| 0 <= w < nl.len() && (#[trigger] nl[w]).0 == x;
                if w >= kk {
                    assert(has_event(ol, nl[w].0));
                }
                assert(nl.take(kk)[w] == nl[w]);
            }
            if has_event(nl.take(kk), x) {
                let w = choose|w: int| 0 <= w < nl.take(kk).len() && (#[trigger] nl.take(kk)[w]).0 == x;
                assert(nl.take(kk)[w] == nl[w]);
            }
        }
        if has_event(nl, x) {
            assert(remove_listeners(ol, nl, p, k) =~= prev);
            assert(kept_listeners(ol, nl, k) == kp + seq![u[t]]);
            assert(u.skip(t) =~= seq![u[t]] + u.skip(k));
            assert(cur =~= kept_listeners(ol, nl, k) + u.skip(k) + added);
        } else {
            let rm = PatchModel::RemoveListener { path: p, event: x };
            assert(remove_listeners(ol, nl, p, k) == prev + seq![rm]);
            lemma_single(NodeModel::Element(elem_with_listeners(e, cur)), rm, p);
            lemma_run_concat(NodeModel::Element(e), prev, seq![rm], p.len() as int);
            lemma_under_concat(prev, seq![rm], p);
            assert(u[t] == ol[t]);
            assert(kept_listeners(ol, nl, k) =~= kp);
            assert(u.skip(t) =~= seq![ol[t]] + u.skip(k));
            assert(cur =~= kp + seq![ol[t]] + (u.skip(k) + added));
            lemma_without_listener_concat(kp + seq![ol[t]], u.skip(k) + added, x);
            lemma_without_listener_concat(kp, seq![ol[t]], x);
            assert forall|v: int| 0 <= v < kp.len() implies (#[trigger] kp[v]).0 != x by {
                assert(has_event(ol.take(t), kp[v].0));
                let w = choose|w: int| 0 <= w < ol.take(t).len() && (#[trigger] ol.take(t)[w]).0 == kp[v].0;
                assert(ol.take(t)[w] == ol[w]);
            }
            lemma_without_listener_absent(kp, x);
            let rest = u.skip(k) + added;
            assert forall|v: int| 0 <= v < rest.len() implies (#[trigger] rest[v]).0 != x by {
                if v < u.skip(k).len() {
                    assert(rest[v] == u[k + v]);
                    assert(u[k + v].0 == ol[k + v].0);
                } else {
                    assert(rest[v] == nl[kk + v - u.skip(k).len()]);
                    assert(!has_event(ol, nl[kk + v - u.skip(k).len()].0));
                }
            }
            lemma_without_listener_absent(rest, x);
            assert(seq![ol[t]].drop_last() =~= Seq::<(Seq<char>, Seq<char>)>::empty());
            assert(without_listener(Seq::<(Seq<char>, Seq<char>)>::empty(), x) == Seq::<(Seq<char>, Seq<char>)>::empty());
            assert(without_listener(seq![ol[t]], x) =~= Seq::<(Seq<char>, Seq<char>)>::empty());
            assert(without_listener(cur, x) =~= kept_listeners(ol, nl, k) + u.skip(k) + added);
            assert(elem_with_listeners(elem_with_listeners(e, cur), kept_listeners(ol, nl, k) + u.skip(k) + added)
                == elem_with_listeners(e, kept_listeners(ol, nl, k) + u.skip(k) + added));
        }
    }
}

/// The listener patches between equal lists or a listener edit (see
/// `events_edit`) turn the old element's listeners into the new ones.
#[verifier::spinoff_prover]
#[verifier::rlimit(40)]
proof fn lemma_listeners_run(e: ElementModel, nl: Seq<(Seq<char>, Seq<char>)>, p: Seq<usize>)
    requires
        e.listeners == nl || events_edit(e.listeners, nl),
    ensures
        run_at(NodeModel::Element(e), diff_listeners_s(e.listeners, nl, p), p.len() as int) == Ok::<
            NodeModel,
            Seq<char>,
        >(NodeModel::Element(elem_with_listeners(e, nl))),
        under(diff_listeners_s(e.listeners, nl, p), p),
        no_removes(diff_listeners_s(e.listeners, nl, p)),
{
    let ol = e.listeners;
    let k = p.len() as int;
    if ol == nl {
        lemma_same_listeners(ol, p, ol.len() as int);
        assert(diff_listeners_s(ol, nl, p) =~= Seq::<PatchModel>::empty());
        assert(elem_with_listeners(e, nl) == e);
    } else {
        let sets = set_listeners(ol, nl, p, nl.len() as int);
        let rems = remove_listeners(ol, nl, p, ol.len() as int);
        let kk = kept_listeners(ol, nl, ol.len() as int).len() as int;
        lemma_set_listeners_run(e, nl, p, nl.len() as int);
        let u = upd_listeners(ol, nl, kk);
        let mid = u + nl.skip(kk);
        if nl.len() <= kk {
            assert(nl.len() == kk);
            assert(mid =~= upd_listeners(ol, nl, nl.len() as int));
        } else {
            assert(nl.subrange(kk, nl.len() as int) =~= nl.skip(kk));
        }
        let e1 = elem_with_listeners(e, mid);
        lemma_remove_listeners_run(e1, ol, nl, p, ol.len() as int);
        lemma_run_concat(NodeModel::Element(e), sets, rems, k);
        lemma_under_concat(sets, rems, p);
        assert(ol.take(ol.len() as int) =~= ol);
        assert(u.skip(ol.len() as int) =~= Seq::<(Seq<char>, Seq<char>)>::empty());
        assert(kept_listeners(ol, nl, ol.len() as int) + u.skip(ol.len() as int) + nl.skip(kk) =~= nl);
        assert(elem_with_listeners(e1, nl) == elem_with_listeners(e, nl));
    }
}

// ---------------------------------------------------------------------------
// The round trip
// ---------------------------------------------------------------------------

/// The first index whose node has key `k` is `j` when no node before `j`
/// has it.
proof fn lemma_first_key(s: Seq<NodeModel>, k: Seq<char>, j: int, i: int)
    requires
        0 <= i <= j < s.len(),
        key_of(s[j]) == Some(k),
        forall|t: int| 0 <= t < j ==> key_of(#[trigger] s[t]) != Some(k),
    ensures
        first_key_from(s, k, i) == j,
    decreases j - i,
{
    if i < j {
        lemma_first_key(s, k, j, i + 1);
    }
}

/// Pairs of trees on which applying their diff is shown to give back the new
/// tree. Two components with the same name, props and key are compatible
/// when their rendered trees are of the same kind (see `same_kind`), are not
/// components themselves, and are compatible; two components that differ in
/// one of these are replaced whole; an old component whose rendered tree is
/// not a component and not of the new node's kind is replaced by the new
/// node; no other pair with a component boundary is. Where both are elements with
/// the same tag, namespace and key, they have the same hydration id, their
/// attributes are equal or the new ones carry no name twice, their listeners
/// are equal or a listener edit (see `events_edit`), and their child lists are
/// compatible; where both are fragments, their child lists are compatible.
/// Two child lists are compatible when their lengths fit in `usize` and,
/// diffed by position (both empty, or not every child on both sides keyed),
/// the children at the same position are compatible (extra new children are
/// appended, extra old ones removed), or, diffed by key, each new child is
/// compatible with its old partner (the first old child with its key, for
/// the first new child with that key; new children without partner are
/// inserted, old ones without partner removed, and the matched ones may be
/// reordered). Any other pair of nodes is replaced or retexted whole.
pub open spec fn edit_compatible(o: NodeModel, n: NodeModel) -> bool
    decreases o, n, 0int,
{
    if o is Component {
        match o {
            NodeModel::Component(a) => match n {
                NodeModel::Component(b) => if a.name != b.name || a.props_json != b.props_json || a.key != b.key {
                    true
                } else {
                    same_kind(*a.rendered, *b.rendered) && edit_compatible(*a.rendered, *b.rendered)
                },
                _ => !(*a.rendered is Component) && !same_kind(*a.rendered, n),
            },
            _ => false,
        }
    } else if n is Component {
        false
    } else {
        match o {
            NodeModel::Element(a) => match n {
                NodeModel::Element(b) => if a.tag != b.tag || a.namespace != b.namespace || a.key != b.key {
                    true
                } else {
                    &&& a.hid == b.hid
                    &&& (a.attrs == b.attrs || distinct_names(b.attrs))
                    &&& (a.listeners == b.listeners || events_edit(a.listeners, b.listeners))
                    &&& a.children.len() <= usize::MAX
                    &&& b.children.len() <= usize::MAX
                    &&& if kids_keyed(a.children, b.children) {
                        kpairs_compatible(a.children, b.children, b.children.len() as int)
                    } else {
                        pairs_compatible(a.children, b.children, min_len(a.children.len() as int, b.children.len() as int))
                    }
                },
                _ => true,
            },
            NodeModel::Fragment(a) => match n {
                NodeModel::Fragment(b) => {
                    &&& a.len() <= usize::MAX
                    &&& b.len() <= usize::MAX
                    &&& if kids_keyed(a, b) {
                        kpairs_compatible(a, b, b.len() as int)
                    } else {
                        pairs_compatible(a, b, min_len(a.len() as int, b.len() as int))
                    }
                },
                _ => true,
            },
            _ => true,
        }
    }
}

/// The first `k` child pairs are compatible.
pub open spec fn pairs_compatible(os: Seq<NodeModel>, ns: Seq<NodeModel>, k: int) -> bool
    decreases os, ns, k,
{
    if k <= 0 || k > os.len() || k > ns.len() {
        true
    } else {
        pairs_compatible(os, ns, k - 1) && edit_compatible(os[k - 1], ns[k - 1])
    }
}

/// The old tree once the diff's removals are done: each child list that is
/// diffed by position keeps only as many children as the new list has; each
/// keyed one keeps the old children that have a partner.
pub open spec fn trunc(o: NodeModel, n: NodeModel) -> NodeModel
    decreases o, n, 0int,
{
    match o {
        NodeModel::Component(a) => match n {
            NodeModel::Component(b) => if a.name != b.name || a.props_json != b.props_json || a.key != b.key {
                o
            } else {
                NodeModel::Component(comp_with_rendered(a, trunc(*a.rendered, *b.rendered)))
            },
            _ => o,
        },
        NodeModel::Element(a) => match n {
            NodeModel::Element(b) => if a.tag != b.tag || a.namespace != b.namespace || a.key != b.key {
                o
            } else {
                NodeModel::Element(
                    elem_with_children(
                        a,
                        if kids_keyed(a.children, b.children) {
                            kept_from(a.children, b.children, 0, 0)
                        } else {
                            trunc_list(a.children, b.children, min_len(a.children.len() as int, b.children.len() as int))
                        },
                    ),
                )
            },
            _ => o,
        },
        NodeModel::Fragment(a) => match n {
            NodeModel::Fragment(b) => NodeModel::Fragment(
                if kids_keyed(a, b) {
                    kept_from(a, b, 0, 0)
                } else {
                    trunc_list(a, b, min_len(a.len() as int, b.len() as int))
                },
            ),
            _ => o,
        },
        _ => o,
    }
}

/// The first `k` old children once the removals are done.
pub open spec fn trunc_list(os: Seq<NodeModel>, ns: Seq<NodeModel>, k: int) -> Seq<NodeModel>
    decreases os, ns, k,
{
    if k <= 0 || k > os.len() || k > ns.len() {
        Seq::empty()
    } else {
        trunc_list(os, ns, k - 1).push(trunc(os[k - 1], ns[k - 1]))
    }
}

proof fn lemma_trunc_list(os: Seq<NodeModel>, ns: Seq<NodeModel>, k: int)
    requires
        0 <= k <= os.len(),
        k <= ns.len(),
    ensures
        trunc_list(os, ns, k).len() == k,
        forall|i: int| 0 <= i < k ==> (#[trigger] trunc_list(os, ns, k)[i]) == trunc(os[i], ns[i]),
    decreases k,
{
    if k > 0 {
        lemma_trunc_list(os, ns, k - 1);
        assert forall|i: int| 0 <= i < k implies (#[trigger] trunc_list(os, ns, k)[i]) == trunc(os[i], ns[i]) by {
            if i < k - 1 {
                assert(trunc_list(os, ns, k)[i] == trunc_list(os, ns, k - 1)[i]);
            }
        }
    }
}

proof fn lemma_single(o: NodeModel, x: PatchModel, p: Seq<usize>)
    requires
        path_of(x) == p,
        !(x is Remove),
    ensures
        run_at(o, seq![x], p.len() as int) == edit_here_s(o, x),
        under(seq![x], p),
        no_removes(seq![x]),
{
    assert(seq![x].drop_last() =~= Seq::<PatchModel>::empty());
    assert(run_at(o, Seq::<PatchModel>::empty(), p.len() as int) == Ok::<NodeModel, Seq<char>>(o));
    assert(p.subrange(0, p.len() as int) =~= p);
    assert(seq![x][0] == x);
}

proof fn lemma_children_positional(os: Seq<NodeModel>, ns: Seq<NodeModel>, op: Seq<usize>, np: Seq<usize>)
    requires
        !kids_keyed(os, ns),
        ns.len() <= usize::MAX,
    ensures
        diff_children_s(os, ns, op, np) == positional_pairs(os, ns, op, np, min_len(os.len() as int, ns.len() as int))
            + tail_removes(op, ns.len() as int, os.len() as int) + tail_creates(
            ns,
            np,
            os.len() as int,
            ns.len() as int,
        ),
{
    let m = min_len(os.len() as int, ns.len() as int);
    if os.len() == 0 && ns.len() == 0 {
        assert(positional_pairs(os, ns, op, np, 0) + tail_removes(op, 0, 0) + tail_creates(ns, np, 0, 0)
            =~= Seq::<PatchModel>::empty());
    }
}

/// The tail removals are skipped by the edits that follow the removals.
proof fn lemma_tail_removes_skip(n: NodeModel, op: Seq<usize>, p: Seq<usize>, lo: int, hi: int)
    ensures
        run_at(n, tail_removes(op, lo, hi), p.len() as int) == Ok::<NodeModel, Seq<char>>(n),
        under(tail_removes(op, lo, hi), p),
    decreases hi - lo,
{
    if hi > lo {
        lemma_tail_removes_skip(n, op, p, lo, hi - 1);
        let rm = PatchModel::Remove { path: op.push((hi - 1) as usize) };
        let rest = tail_removes(op, lo, hi - 1);
        assert(seq![rm].drop_last() =~= Seq::<PatchModel>::empty());
        assert(run_at(n, Seq::<PatchModel>::empty(), p.len() as int) == Ok::<NodeModel, Seq<char>>(n));
        assert(run_at(n, seq![rm], p.len() as int) == Ok::<NodeModel, Seq<char>>(n));
        lemma_run_concat(n, seq![rm], rest, p.len() as int);
        assert(under(seq![rm], p)) by {
            assert forall|i: int| 0 <= i < seq![rm].len() && !(seq![rm][i] is Remove) implies p.len() <= path_of(
                #[trigger] seq![rm][i],
            ).len() && path_of(seq![rm][i]).subrange(0, p.len() as int) == p by {
                assert(seq![rm][i] == rm);
            }
        }
        lemma_under_concat_any(seq![rm], rest, p);
    }
}

proof fn lemma_creates_elem(e: ElementModel, ns: Seq<NodeModel>, p: Seq<usize>, lo: int, j: int)
    requires
        0 <= lo <= j <= ns.len(),
        ns.len() <= usize::MAX,
        e.children == ns.take(lo),
    ensures
        run_at(NodeModel::Element(e), tail_creates(ns, p, lo, j), p.len() as int) == Ok::<NodeModel, Seq<char>>(
            NodeModel::Element(elem_with_children(e, ns.take(j))),
        ),
        under(tail_creates(ns, p, lo, j), p),
    decreases j - lo,
{
    if j == lo {
        assert(elem_with_children(e, ns.take(lo)) == e);
    } else {
        lemma_creates_elem(e, ns, p, lo, j - 1);
        let c = PatchModel::Create { path: p, index: (j - 1) as usize, node: ns[j - 1] };
        let e2 = elem_with_children(e, ns.take(j - 1));
        lemma_single(NodeModel::Element(e2), c, p);
        lemma_run_concat(NodeModel::Element(e), tail_creates(ns, p, lo, j - 1), seq![c], p.len() as int);
        lemma_under_concat_any(tail_creates(ns, p, lo, j - 1), seq![c], p);
        assert(ns.take(j - 1).insert(j - 1, ns[j - 1]) =~= ns.take(j));
        assert(elem_with_children(e2, ns.take(j)) == elem_with_children(e, ns.take(j)));
    }
}

proof fn lemma_creates_frag(ns: Seq<NodeModel>, p: Seq<usize>, lo: int, j: int)
    requires
        0 <= lo <= j <= ns.len(),
        ns.len() <= usize::MAX,
    ensures
        run_at(NodeModel::Fragment(ns.take(lo)), tail_creates(ns, p, lo, j), p.len() as int) == Ok::<
            NodeModel,
            Seq<char>,
        >(NodeModel::Fragment(ns.take(j))),
        under(tail_creates(ns, p, lo, j), p),
    decreases j - lo,
{
    if j > lo {
        lemma_creates_frag(ns, p, lo, j - 1);
        let c = PatchModel::Create { path: p, index: (j - 1) as usize, node: ns[j - 1] };
        lemma_single(NodeModel::Fragment(ns.take(j - 1)), c, p);
        lemma_run_concat(NodeModel::Fragment(ns.take(lo)), tail_creates(ns, p, lo, j - 1), seq![c], p.len() as int);
        lemma_under_concat_any(tail_creates(ns, p, lo, j - 1), seq![c], p);
        assert(ns.take(j - 1).insert(j - 1, ns[j - 1]) =~= ns.take(j));
    }
}

proof fn lemma_no_creates(n: NodeModel, ns: Seq<NodeModel>, p: Seq<usize>, lo: int, j: int)
    requires
        j <= lo,
    ensures
        tail_creates(ns, p, lo, j) == Seq::<PatchModel>::empty(),
        run_at(n, tail_creates(ns, p, lo, j), p.len() as int) == Ok::<NodeModel, Seq<char>>(n),
        under(tail_creates(ns, p, lo, j), p),
{
}

#[verifier::spinoff_prover]
#[verifier::rlimit(40)]
proof fn lemma_pairs_elem(e: ElementModel, os: Seq<NodeModel>, ns: Seq<NodeModel>, op: Seq<usize>, p: Seq<usize>, j: int)
    requires
        0 <= j <= min_len(os.len() as int, ns.len() as int),
        ns.len() <= usize::MAX,
        e.children == trunc_list(os, ns, min_len(os.len() as int, ns.len() as int)),
        pairs_compatible(os, ns, j),
    ensures
        run_at(NodeModel::Element(e), positional_pairs(os, ns, op, p, j), p.len() as int) == Ok::<NodeModel, Seq<char>>(
            NodeModel::Element(elem_with_children(e, ns.take(j) + e.children.skip(j))),
        ),
        under(positional_pairs(os, ns, op, p, j), p),
    decreases os, ns, j,
{
    let k = p.len() as int;
    let m = min_len(os.len() as int, ns.len() as int);
    let tk = e.children;
    lemma_trunc_list(os, ns, m);
    if j == 0 {
        assert(ns.take(0) + tk.skip(0) =~= tk);
        assert(elem_with_children(e, tk) == e);
    } else {
        lemma_pairs_elem(e, os, ns, op, p, j - 1);
        let q = p.push((j - 1) as usize);
        let oq = op.push((j - 1) as usize);
        let d = diff_node_s(os[j - 1], ns[j - 1], oq, q);
        lemma_round(os[j - 1], ns[j - 1], oq, q);
        lemma_under_push(d, p, (j - 1) as usize);
        let e1 = elem_with_children(e, ns.take(j - 1) + tk.skip(j - 1));
        assert(e1.children[j - 1] == tk[j - 1]);
        assert(tk[j - 1] == trunc(os[j - 1], ns[j - 1]));
        lemma_descend_elem(e1, d, k, j - 1);
        lemma_run_concat(NodeModel::Element(e), positional_pairs(os, ns, op, p, j - 1), d, k);
        lemma_under_concat_any(positional_pairs(os, ns, op, p, j - 1), d, p);
        assert(e1.children.update(j - 1, ns[j - 1]) =~= ns.take(j) + tk.skip(j));
        assert(elem_with_children(e1, e1.children.update(j - 1, ns[j - 1])) == elem_with_children(
            e,
            ns.take(j) + tk.skip(j),
        ));
    }
}

#[verifier::spinoff_prover]
#[verifier::rlimit(40)]
proof fn lemma_pairs_frag(os: Seq<NodeModel>, ns: Seq<NodeModel>, op: Seq<usize>, p: Seq<usize>, j: int)
    requires
        0 <= j <= min_len(os.len() as int, ns.len() as int),
        ns.len() <= usize::MAX,
        pairs_compatible(os, ns, j),
    ensures
        run_at(
            NodeModel::Fragment(trunc_list(os, ns, min_len(os.len() as int, ns.len() as int))),
            positional_pairs(os, ns, op, p, j),
            p.len() as int,
        ) == Ok::<NodeModel, Seq<char>>(
            NodeModel::Fragment(ns.take(j) + trunc_list(os, ns, min_len(os.len() as int, ns.len() as int)).skip(j)),
        ),
        under(positional_pairs(os, ns, op, p, j), p),
    decreases os, ns, j,
{
    let k = p.len() as int;
    let m = min_len(os.len() as int, ns.len() as int);
    let tk = trunc_list(os, ns, m);
    lemma_trunc_list(os, ns, m);
    if j == 0 {
        assert(ns.take(0) + tk.skip(0) =~= tk);
    } else {
        lemma_pairs_frag(os, ns, op, p, j - 1);
        let q = p.push((j - 1) as usize);
        let oq = op.push((j - 1) as usize);
        let d = diff_node_s(os[j - 1], ns[j - 1], oq, q);
        lemma_round(os[j - 1], ns[j - 1], oq, q);
        lemma_under_push(d, p, (j - 1) as usize);
        let c1 = ns.take(j - 1) + tk.skip(j - 1);
        assert(c1[j - 1] == tk[j - 1]);
        assert(tk[j - 1] == trunc(os[j - 1], ns[j - 1]));
        lemma_descend_frag(c1, d, k, j - 1);
        lemma_run_concat(NodeModel::Fragment(tk), positional_pairs(os, ns, op, p, j - 1), d, k);
        lemma_under_concat_any(positional_pairs(os, ns, op, p, j - 1), d, p);
        assert(c1.update(j - 1, ns[j - 1]) =~= ns.take(j) + tk.skip(j));
    }
}

proof fn lemma_under_concat_any(a: Seq<PatchModel>, b: Seq<PatchModel>, p: Seq<usize>)
    requires
        under(a, p),
        under(b, p),
    ensures
        under(a + b, p),
{
    assert forall|i: int| 0 <= i < (a + b).len() && !((a + b)[i] is Remove) implies p.len() <= path_of(
        #[trigger] (a + b)[i],
    ).len() && path_of((a + b)[i]).subrange(0, p.len() as int) == p by {
        if i < a.len() {
            assert((a + b)[i] == a[i]);
        } else {
            assert((a + b)[i] == b[i - a.len()]);
        }
    }
}

proof fn lemma_empty_run(o: NodeModel, p: Seq<usize>)
    ensures
        run_at(o, Seq::<PatchModel>::empty(), p.len() as int) == Ok::<NodeModel, Seq<char>>(o),
        under(Seq::<PatchModel>::empty(), p),
{
}

/// The diff of compatible trees at path `p`, its edits applied to the old
/// subtree once its removals are done, gives the new one; its patches
/// address nodes at or below `p`.
#[verifier::spinoff_prover]
#[verifier::rlimit(40)]
proof fn lemma_round(o: NodeModel, n: NodeModel, op: Seq<usize>, p: Seq<usize>)
    requires
        edit_compatible(o, n),
    ensures
        run_at(trunc(o, n), diff_node_s(o, n, op, p), p.len() as int) == Ok::<NodeModel, Seq<char>>(n),
        under(diff_node_s(o, n, op, p), p),
    decreases o, n, 0int,
{
    let k = p.len() as int;
    let rep = PatchModel::Replace { path: p, new: n };
    match o {
        NodeModel::Element(a) => match n {
            NodeModel::Element(b) => {
                if a.tag != b.tag || a.namespace != b.namespace || a.key != b.key {
                    lemma_single(o, rep, p);
                } else if kids_keyed(a.children, b.children) {
                    let os = a.children;
                    let ns = b.children;
                    let ta = elem_with_children(a, kept_from(os, ns, 0, 0));
                    let attrs_ps = diff_attrs_s(a.attrs, b.attrs, p);
                    let ls_ps = diff_listeners_s(a.listeners, b.listeners, p);
                    let kid_ps = diff_children_s(os, ns, op, p);
                    lemma_attrs_run(ta, b.attrs, p);
                    let e0 = elem_with_attrs(ta, b.attrs);
                    lemma_listeners_run(e0, b.listeners, p);
                    let e1 = elem_with_listeners(e0, b.listeners);
                    lemma_keyed_kids_run(NodeModel::Element(e1), os, ns, op, p);
                    lemma_run_concat(trunc(o, n), attrs_ps, ls_ps, k);
                    lemma_run_concat(trunc(o, n), attrs_ps + ls_ps, kid_ps, k);
                    assert(run_at(trunc(o, n), attrs_ps + ls_ps, k) == Ok::<NodeModel, Seq<char>>(
                        NodeModel::Element(e1),
                    ));
                    lemma_under_concat_any(attrs_ps, ls_ps, p);
                    lemma_under_concat_any(attrs_ps + ls_ps, kid_ps, p);
                    assert(elem_with_children(e1, ns) == b);
                } else {
                    let os = a.children;
                    let ns = b.children;
                    let m = min_len(os.len() as int, ns.len() as int);
                    let tk = trunc_list(os, ns, m);
                    lemma_trunc_list(os, ns, m);
                    let ta = elem_with_children(a, tk);
                    let attrs_ps = diff_attrs_s(a.attrs, b.attrs, p);
                    let ls_ps = diff_listeners_s(a.listeners, b.listeners, p);
                    let kid_ps = diff_children_s(os, ns, op, p);
                    lemma_attrs_run(ta, b.attrs, p);
                    let e0 = elem_with_attrs(ta, b.attrs);
                    lemma_listeners_run(e0, b.listeners, p);
                    let e1 = elem_with_listeners(e0, b.listeners);
                    lemma_children_positional(os, ns, op, p);
                    let pairs = positional_pairs(os, ns, op, p, m);
                    let rems = tail_removes(op, ns.len() as int, os.len() as int);
                    let creates = tail_creates(ns, p, os.len() as int, ns.len() as int);
                    lemma_pairs_elem(e1, os, ns, op, p, m);
                    assert(tk.skip(m) =~= Seq::<NodeModel>::empty());
                    assert(ns.take(m) + tk.skip(m) =~= ns.take(m));
                    let e2 = elem_with_children(e1, ns.take(m));
                    lemma_tail_removes_skip(NodeModel::Element(e2), op, p, ns.len() as int, os.len() as int);
                    if os.len() <= ns.len() {
                        lemma_creates_elem(e2, ns, p, os.len() as int, ns.len() as int);
                    } else {
                        lemma_no_creates(NodeModel::Element(e2), ns, p, os.len() as int, ns.len() as int);
                        assert(ns.take(m) =~= ns);
                    }
                    lemma_run_concat(NodeModel::Element(e1), pairs, rems, k);
                    lemma_run_concat(NodeModel::Element(e1), pairs + rems, creates, k);
                    lemma_under_concat_any(pairs, rems, p);
                    lemma_under_concat_any(pairs + rems, creates, p);
                    lemma_run_concat(trunc(o, n), attrs_ps, ls_ps, k);
                    lemma_run_concat(trunc(o, n), attrs_ps + ls_ps, kid_ps, k);
                    assert(run_at(trunc(o, n), attrs_ps + ls_ps, k) == Ok::<NodeModel, Seq<char>>(
                        NodeModel::Element(e1),
                    ));
                    lemma_under_concat_any(attrs_ps, ls_ps, p);
                    lemma_under_concat_any(attrs_ps + ls_ps, kid_ps, p);
                    assert(ns.take(ns.len() as int) =~= ns);
                    assert(elem_with_children(e1, ns) == b);
                }
            },
            _ => {
                lemma_single(o, rep, p);
            },
        },
        NodeModel::Fragment(a) => match n {
            NodeModel::Fragment(b) => if kids_keyed(a, b) {
                lemma_keyed_kids_run(NodeModel::Fragment(kept_from(a, b, 0, 0)), a, b, op, p);
            } else {
                let m = min_len(a.len() as int, b.len() as int);
                let tk = trunc_list(a, b, m);
                lemma_trunc_list(a, b, m);
                lemma_children_positional(a, b, op, p);
                let pairs = positional_pairs(a, b, op, p, m);
                let rems = tail_removes(op, b.len() as int, a.len() as int);
                let creates = tail_creates(b, p, a.len() as int, b.len() as int);
                lemma_pairs_frag(a, b, op, p, m);
                assert(tk.skip(m) =~= Seq::<NodeModel>::empty());
                assert(b.take(m) + tk.skip(m) =~= b.take(m));
                lemma_tail_removes_skip(NodeModel::Fragment(b.take(m)), op, p, b.len() as int, a.len() as int);
                if a.len() <= b.len() {
                    lemma_creates_frag(b, p, a.len() as int, b.len() as int);
                } else {
                    lemma_no_creates(NodeModel::Fragment(b.take(m)), b, p, a.len() as int, b.len() as int);
                }
                lemma_run_concat(NodeModel::Fragment(tk), pairs, rems, k);
                lemma_run_concat(NodeModel::Fragment(tk), pairs + rems, creates, k);
                lemma_under_concat_any(pairs, rems, p);
                lemma_under_concat_any(pairs + rems, creates, p);
                assert(b.take(b.len() as int) =~= b);
                assert(b.take(m) =~= b.take(m));
                if a.len() > b.len() {
                    assert(b.take(m) =~= b);
                }
            },
            _ => {
                lemma_single(o, rep, p);
            },
        },
        NodeModel::Text(x) => match n {
            NodeModel::Text(y) => {
                if x != y {
                    lemma_single(o, PatchModel::SetText { path: p, text: y }, p);
                } else {
                    lemma_empty_run(o, p);
                }
            },
            _ => {
                lemma_single(o, rep, p);
            },
        },
        NodeModel::Empty => match n {
            NodeModel::Empty => {
                lemma_empty_run(o, p);
            },
            _ => {
                lemma_single(o, rep, p);
            },
        },
        NodeModel::Component(a) => match n {
            NodeModel::Component(b) => {
                if a.name != b.name || a.props_json != b.props_json || a.key != b.key {
                    lemma_single(o, rep, p);
                } else {
                    let ra = *a.rendered;
                    let rb = *b.rendered;
                    let ps = diff_node_s(ra, rb, op, p);
                    lemma_round(ra, rb, op, p);
                    let c2 = comp_with_rendered(a, trunc(ra, rb));
                    assert(trunc(o, n) == NodeModel::Component(c2));
                    assert(diff_node_s(o, n, op, p) == ps);
                    assert(comp_with_rendered(c2, rb) == b);
                    if holder(ra) {
                        lemma_same_kind_keeps(ra, rb, op, p);
                        assert(holder(trunc(ra, rb)));
                        lemma_wrap_run(c2, ps, k);
                    } else {
                        match ra {
                            NodeModel::Text(x) => match rb {
                                NodeModel::Text(y) => {
                                    if x != y {
                                        lemma_single(trunc(o, n), PatchModel::SetText { path: p, text: y }, p);
                                    } else {
                                        lemma_empty_run(trunc(o, n), p);
                                    }
                                },
                                _ => {},
                            },
                            _ => {
                                lemma_empty_run(trunc(o, n), p);
                            },
                        }
                    }
                }
            },
            _ => {
                lemma_replaced(*a.rendered, n, op, p);
                lemma_single(o, rep, p);
            },
        },
    }
}

proof fn lemma_rest_is_run(t: NodeModel, ps: Seq<PatchModel>, i: int)
    requires
        0 <= i <= ps.len(),
    ensures
        apply_rest_s(t, ps, i) == run_at(t, ps.take(i), 0),
    decreases i,
{
    if i > 0 {
        lemma_rest_is_run(t, ps, i - 1);
        assert(ps.take(i).drop_last() =~= ps.take(i - 1));
    } else {
        assert(ps.take(0) =~= Seq::<PatchModel>::empty());
    }
}


// ---------------------------------------------------------------------------
// The removals
// ---------------------------------------------------------------------------

/// Paths `p.push(hi - 1)` down to `p.push(lo)`.
pub open spec fn tail_paths(p: Seq<usize>, lo: int, hi: int) -> Seq<Seq<usize>>
    decreases hi - lo,
{
    if hi <= lo {
        Seq::empty()
    } else {
        seq![p.push((hi - 1) as usize)] + tail_paths(p, lo, hi - 1)
    }
}

/// The removal paths of the diff of compatible trees at `p`, from the
/// largest to the smallest: the extra old children of this node's list,
/// last first, then those inside its kept children, last child first.
pub open spec fn rems_s(o: NodeModel, n: NodeModel, p: Seq<usize>) -> Seq<Seq<usize>>
    decreases o, n, 0int,
{
    match o {
        NodeModel::Component(a) => match n {
            NodeModel::Component(b) => if a.name != b.name || a.props_json != b.props_json || a.key != b.key {
                Seq::empty()
            } else {
                rems_s(*a.rendered, *b.rendered, p)
            },
            _ => Seq::empty(),
        },
        NodeModel::Element(a) => match n {
            NodeModel::Element(b) => if a.tag != b.tag || a.namespace != b.namespace || a.key != b.key {
                Seq::empty()
            } else if kids_keyed(a.children, b.children) {
                krems(a.children, b.children, p, a.children.len() as int)
            } else {
                tail_paths(p, b.children.len() as int, a.children.len() as int) + nested_rems(
                    a.children,
                    b.children,
                    p,
                    min_len(a.children.len() as int, b.children.len() as int),
                )
            },
            _ => Seq::empty(),
        },
        NodeModel::Fragment(a) => match n {
            NodeModel::Fragment(b) => if kids_keyed(a, b) {
                krems(a, b, p, a.len() as int)
            } else {
                tail_paths(p, b.len() as int, a.len() as int) + nested_rems(
                    a,
                    b,
                    p,
                    min_len(a.len() as int, b.len() as int),
                )
            },
            _ => Seq::empty(),
        },
        _ => Seq::empty(),
    }
}

/// The removal paths inside the first `j` kept children, child `j - 1`
/// first.
pub open spec fn nested_rems(os: Seq<NodeModel>, ns: Seq<NodeModel>, p: Seq<usize>, j: int) -> Seq<Seq<usize>>
    decreases os, ns, j,
{
    if j <= 0 || j > os.len() || j > ns.len() {
        Seq::empty()
    } else {
        rems_s(os[j - 1], ns[j - 1], p.push((j - 1) as usize)) + nested_rems(os, ns, p, j - 1)
    }
}

/// The removals applied one after another to a node whose own path has
/// length `k`.
pub open spec fn run_removes(t: NodeModel, r: Seq<Seq<usize>>, k: int) -> Result<NodeModel, Seq<char>>
    decreases r.len(),
{
    if r.len() == 0 {
        Ok(t)
    } else {
        match run_removes(t, r.drop_last(), k) {
            Ok(m) => edit_at_s(m, r.last().drop_last(), k, PatchModel::Remove { path: r.last() }),
            Err(e) => Err(e),
        }
    }
}

/// Every path lies strictly below `p`.
pub open spec fn below(r: Seq<Seq<usize>>, p: Seq<usize>) -> bool {
    forall|i: int| 0 <= i < r.len() ==> p.len() < (#[trigger] r[i]).len() && r[i].subrange(0, p.len() as int) == p
}

proof fn lemma_removes_concat(t: NodeModel, a: Seq<Seq<usize>>, b: Seq<Seq<usize>>, k: int)
    ensures
        run_removes(t, a + b, k) == match run_removes(t, a, k) {
            Ok(m) => run_removes(m, b, k),
            Err(e) => Err(e),
        },
    decreases b.len(),
{
    if b.len() == 0 {
        assert(a + b =~= a);
    } else {
        assert((a + b).drop_last() =~= a + b.drop_last());
        lemma_removes_concat(t, a, b.drop_last(), k);
    }
}

proof fn lemma_below_concat(a: Seq<Seq<usize>>, b: Seq<Seq<usize>>, p: Seq<usize>)
    requires
        below(a, p),
        below(b, p),
    ensures
        below(a + b, p),
{
    assert forall|i: int| 0 <= i < (a + b).len() implies p.len() < (#[trigger] (a + b)[i]).len()
        && (a + b)[i].subrange(0, p.len() as int) == p by {
        if i < a.len() {
            assert((a + b)[i] == a[i]);
        } else {
            assert((a + b)[i] == b[i - a.len()]);
        }
    }
}

proof fn lemma_below_push(r: Seq<Seq<usize>>, p: Seq<usize>, j: usize)
    requires
        below(r, p.push(j)),
    ensures
        below(r, p),
        forall|i: int| 0 <= i < r.len() ==> p.len() + 1 < (#[trigger] r[i]).len() && r[i][p.len() as int] == j,
{
    assert forall|i: int| 0 <= i < r.len() implies p.len() < (#[trigger] r[i]).len() && r[i].subrange(
        0,
        p.len() as int,
    ) == p && p.len() + 1 < r[i].len() && r[i][p.len() as int] == j by {
        let q = r[i];
        assert(q.subrange(0, p.len() as int + 1) == p.push(j));
        assert(q.subrange(0, p.len() as int) =~= q.subrange(0, p.len() as int + 1).drop_last());
        assert(q[p.len() as int] == q.subrange(0, p.len() as int + 1)[p.len() as int]);
    }
}

/// Removals inside child `i` of an element edit that child alone.
#[verifier::spinoff_prover]
#[verifier::rlimit(40)]
proof fn lemma_removes_descend_elem(e: ElementModel, r: Seq<Seq<usize>>, k: int, i: int)
    requires
        0 <= k,
        0 <= i < e.children.len(),
        forall|j: int| 0 <= j < r.len() ==> k + 1 < (#[trigger] r[j]).len() && r[j][k] == i,
    ensures
        run_removes(NodeModel::Element(e), r, k) == match run_removes(e.children[i], r, k + 1) {
            Ok(c) => Ok(NodeModel::Element(elem_with_children(e, e.children.update(i, c)))),
            Err(m) => Err(m),
        },
    decreases r.len(),
{
    if r.len() > 0 {
        assert forall|j: int| 0 <= j < r.drop_last().len() implies k + 1 < (#[trigger] r.drop_last()[j]).len()
            && r.drop_last()[j][k] == i by {
            assert(r.drop_last()[j] == r[j]);
        }
        lemma_removes_descend_elem(e, r.drop_last(), k, i);
        let last = r[r.len() - 1];
        let nav = last.drop_last();
        assert(k < nav.len() && nav[k] == last[k]);
        let rm = PatchModel::Remove { path: last };
        match run_removes(e.children[i], r.drop_last(), k + 1) {
            Ok(c) => {
                let e2 = elem_with_children(e, e.children.update(i, c));
                assert(e2.children[i] == c);
                assert(edit_at_s(NodeModel::Element(e2), nav, k, rm) == match edit_at_s(c, nav, k + 1, rm) {
                    Ok(x) => Ok(NodeModel::Element(elem_with_children(e2, e2.children.update(i, x)))),
                    Err(m) => Err(m),
                });
                match edit_at_s(c, nav, k + 1, rm) {
                    Ok(x) => {
                        assert(e2.children.update(i, x) =~= e.children.update(i, x));
                        assert(elem_with_children(e2, e2.children.update(i, x)) == elem_with_children(
                            e,
                            e.children.update(i, x),
                        ));
                    },
                    Err(m) => {},
                }
            },
            Err(m) => {},
        }
    } else {
        assert(e.children.update(i, e.children[i]) =~= e.children);
        assert(elem_with_children(e, e.children.update(i, e.children[i])) == e);
    }
}

/// Removals inside child `i` of a fragment edit that child alone.
proof fn lemma_removes_descend_frag(c: Seq<NodeModel>, r: Seq<Seq<usize>>, k: int, i: int)
    requires
        0 <= k,
        0 <= i < c.len(),
        forall|j: int| 0 <= j < r.len() ==> k + 1 < (#[trigger] r[j]).len() && r[j][k] == i,
    ensures
        run_removes(NodeModel::Fragment(c), r, k) == match run_removes(c[i], r, k + 1) {
            Ok(x) => Ok(NodeModel::Fragment(c.update(i, x))),
            Err(m) => Err(m),
        },
    decreases r.len(),
{
    if r.len() > 0 {
        assert forall|j: int| 0 <= j < r.drop_last().len() implies k + 1 < (#[trigger] r.drop_last()[j]).len()
            && r.drop_last()[j][k] == i by {
            assert(r.drop_last()[j] == r[j]);
        }
        lemma_removes_descend_frag(c, r.drop_last(), k, i);
        let last = r[r.len() - 1];
        let nav = last.drop_last();
        assert(k < nav.len() && nav[k] == last[k]);
        let rm = PatchModel::Remove { path: last };
        match run_removes(c[i], r.drop_last(), k + 1) {
            Ok(x) => {
                let c2 = c.update(i, x);
                assert(c2[i] == x);
                match edit_at_s(x, nav, k + 1, rm) {
                    Ok(y) => {
                        assert(c2.update(i, y) =~= c.update(i, y));
                    },
                    Err(m) => {},
                }
            },
            Err(m) => {},
        }
    } else {
        assert(c.update(i, c[i]) =~= c);
    }
}

/// Removing the extra old children of an element, last first, leaves the
/// first `lo`.
#[verifier::spinoff_prover]
#[verifier::rlimit(40)]
proof fn lemma_tail_paths_elem(e: ElementModel, p: Seq<usize>, lo: int, hi: int)
    requires
        0 <= lo <= hi == e.children.len(),
        hi <= usize::MAX,
    ensures
        run_removes(NodeModel::Element(e), tail_paths(p, lo, hi), p.len() as int) == Ok::<NodeModel, Seq<char>>(
            NodeModel::Element(elem_with_children(e, e.children.take(lo))),
        ),
        below(tail_paths(p, lo, hi), p),
    decreases hi - lo,
{
    let k = p.len() as int;
    if hi == lo {
        assert(e.children.take(lo) =~= e.children);
        assert(elem_with_children(e, e.children) == e);
    } else {
        let q = p.push((hi - 1) as usize);
        let rm = PatchModel::Remove { path: q };
        let e1 = elem_with_children(e, e.children.take(hi - 1));
        assert(q.drop_last() =~= p);
        assert(seq![q].drop_last() =~= Seq::<Seq<usize>>::empty());
        assert(run_removes(NodeModel::Element(e), Seq::<Seq<usize>>::empty(), k) == Ok::<NodeModel, Seq<char>>(
            NodeModel::Element(e),
        ));
        assert(e.children.remove(hi - 1) =~= e.children.take(hi - 1));
        assert(run_removes(NodeModel::Element(e), seq![q], k) == Ok::<NodeModel, Seq<char>>(NodeModel::Element(e1)));
        lemma_tail_paths_elem(e1, p, lo, hi - 1);
        lemma_removes_concat(NodeModel::Element(e), seq![q], tail_paths(p, lo, hi - 1), k);
        assert(e1.children.take(lo) =~= e.children.take(lo));
        assert(elem_with_children(e1, e.children.take(lo)) == elem_with_children(e, e.children.take(lo)));
        assert(q.subrange(0, k) =~= p);
        assert(below(seq![q], p));
        lemma_below_concat(seq![q], tail_paths(p, lo, hi - 1), p);
    }
}

/// Removing the extra old children of a fragment, last first, leaves the
/// first `lo`.
proof fn lemma_tail_paths_frag(c: Seq<NodeModel>, p: Seq<usize>, lo: int, hi: int)
    requires
        0 <= lo <= hi == c.len(),
        hi <= usize::MAX,
    ensures
        run_removes(NodeModel::Fragment(c), tail_paths(p, lo, hi), p.len() as int) == Ok::<NodeModel, Seq<char>>(
            NodeModel::Fragment(c.take(lo)),
        ),
        below(tail_paths(p, lo, hi), p),
    decreases hi - lo,
{
    let k = p.len() as int;
    if hi == lo {
        assert(c.take(lo) =~= c);
    } else {
        let q = p.push((hi - 1) as usize);
        let c1 = c.take(hi - 1);
        assert(q.drop_last() =~= p);
        assert(seq![q].drop_last() =~= Seq::<Seq<usize>>::empty());
        assert(run_removes(NodeModel::Fragment(c), Seq::<Seq<usize>>::empty(), k) == Ok::<NodeModel, Seq<char>>(
            NodeModel::Fragment(c),
        ));
        assert(c.remove(hi - 1) =~= c1);
        assert(run_removes(NodeModel::Fragment(c), seq![q], k) == Ok::<NodeModel, Seq<char>>(NodeModel::Fragment(c1)));
        lemma_tail_paths_frag(c1, p, lo, hi - 1);
        lemma_removes_concat(NodeModel::Fragment(c), seq![q], tail_paths(p, lo, hi - 1), k);
        assert(c1.take(lo) =~= c.take(lo));
        assert(q.subrange(0, k) =~= p);
        assert(below(seq![q], p));
        lemma_below_concat(seq![q], tail_paths(p, lo, hi - 1), p);
    }
}

#[verifier::spinoff_prover]
#[verifier::rlimit(40)]
proof fn lemma_nested_elem(e: ElementModel, os: Seq<NodeModel>, ns: Seq<NodeModel>, p: Seq<usize>, j: int)
    requires
        0 <= j <= min_len(os.len() as int, ns.len() as int),
        os.len() <= usize::MAX,
        pairs_compatible(os, ns, j),
        e.children == os.take(j) + trunc_list(os, ns, min_len(os.len() as int, ns.len() as int)).skip(j),
    ensures
        run_removes(NodeModel::Element(e), nested_rems(os, ns, p, j), p.len() as int) == Ok::<NodeModel, Seq<char>>(
            NodeModel::Element(elem_with_children(e, trunc_list(os, ns, min_len(os.len() as int, ns.len() as int)))),
        ),
        below(nested_rems(os, ns, p, j), p),
    decreases os, ns, j,
{
    let k = p.len() as int;
    let m = min_len(os.len() as int, ns.len() as int);
    let tk = trunc_list(os, ns, m);
    lemma_trunc_list(os, ns, m);
    if j == 0 {
        assert(os.take(0) + tk.skip(0) =~= tk);
        assert(elem_with_children(e, tk) == e);
    } else {
        let q = p.push((j - 1) as usize);
        let r = rems_s(os[j - 1], ns[j - 1], q);
        lemma_removals(os[j - 1], ns[j - 1], q);
        lemma_below_push(r, p, (j - 1) as usize);
        assert(e.children[j - 1] == os[j - 1]);
        lemma_removes_descend_elem(e, r, k, j - 1);
        let e1 = elem_with_children(e, e.children.update(j - 1, tk[j - 1]));
        assert(e.children.update(j - 1, tk[j - 1]) =~= os.take(j - 1) + tk.skip(j - 1));
        lemma_nested_elem(e1, os, ns, p, j - 1);
        lemma_removes_concat(NodeModel::Element(e), r, nested_rems(os, ns, p, j - 1), k);
        lemma_below_concat(r, nested_rems(os, ns, p, j - 1), p);
        assert(elem_with_children(e1, tk) == elem_with_children(e, tk));
    }
}

#[verifier::spinoff_prover]
#[verifier::rlimit(40)]
proof fn lemma_nested_frag(c: Seq<NodeModel>, os: Seq<NodeModel>, ns: Seq<NodeModel>, p: Seq<usize>, j: int)
    requires
        0 <= j <= min_len(os.len() as int, ns.len() as int),
        os.len() <= usize::MAX,
        pairs_compatible(os, ns, j),
        c == os.take(j) + trunc_list(os, ns, min_len(os.len() as int, ns.len() as int)).skip(j),
    ensures
        run_removes(NodeModel::Fragment(c), nested_rems(os, ns, p, j), p.len() as int) == Ok::<NodeModel, Seq<char>>(
            NodeModel::Fragment(trunc_list(os, ns, min_len(os.len() as int, ns.len() as int))),
        ),
        below(nested_rems(os, ns, p, j), p),
    decreases os, ns, j,
{
    let k = p.len() as int;
    let m = min_len(os.len() as int, ns.len() as int);
    let tk = trunc_list(os, ns, m);
    lemma_trunc_list(os, ns, m);
    if j == 0 {
        assert(os.take(0) + tk.skip(0) =~= tk);
    } else {
        let q = p.push((j - 1) as usize);
        let r = rems_s(os[j - 1], ns[j - 1], q);
        lemma_removals(os[j - 1], ns[j - 1], q);
        lemma_below_push(r, p, (j - 1) as usize);
        assert(c[j - 1] == os[j - 1]);
        lemma_removes_descend_frag(c, r, k, j - 1);
        let c1 = c.update(j - 1, tk[j - 1]);
        assert(c1 =~= os.take(j - 1) + tk.skip(j - 1));
        lemma_nested_frag(c1, os, ns, p, j - 1);
        lemma_removes_concat(NodeModel::Fragment(c), r, nested_rems(os, ns, p, j - 1), k);
        lemma_below_concat(r, nested_rems(os, ns, p, j - 1), p);
    }
}

/// The removals of the diff of compatible trees, largest path first, turn
/// the old subtree into its truncation.
#[verifier::spinoff_prover]
#[verifier::rlimit(40)]
proof fn lemma_removals(o: NodeModel, n: NodeModel, p: Seq<usize>)
    requires
        edit_compatible(o, n),
    ensures
        run_removes(o, rems_s(o, n, p), p.len() as int) == Ok::<NodeModel, Seq<char>>(trunc(o, n)),
        below(rems_s(o, n, p), p),
    decreases o, n, 0int,
{
    let k = p.len() as int;
    match o {
        NodeModel::Component(a) => match n {
            NodeModel::Component(b) => {
                if !(a.name != b.name || a.props_json != b.props_json || a.key != b.key) {
                    let ra = *a.rendered;
                    let rb = *b.rendered;
                    let r = rems_s(ra, rb, p);
                    lemma_removals(ra, rb, p);
                    if holder(ra) {
                        assert forall|i: int| 0 <= i < r.len() implies (#[trigger] r[i]).len() > k by {}
                        lemma_wrap_removes(a, r, k);
                    } else {
                        assert(r == Seq::<Seq<usize>>::empty());
                        assert(comp_with_rendered(a, ra) == a);
                    }
                }
            },
            _ => {},
        },
        NodeModel::Element(a) => match n {
            NodeModel::Element(b) => {
                if !(a.tag != b.tag || a.namespace != b.namespace || a.key != b.key) && kids_keyed(
                    a.children,
                    b.children,
                ) {
                    lemma_keyed_kids_removals(o, a.children, b.children, p);
                } else if !(a.tag != b.tag || a.namespace != b.namespace || a.key != b.key) {
                    let os = a.children;
                    let ns = b.children;
                    let m = min_len(os.len() as int, ns.len() as int);
                    let tk = trunc_list(os, ns, m);
                    lemma_trunc_list(os, ns, m);
                    let tails = tail_paths(p, ns.len() as int, os.len() as int);
                    let nested = nested_rems(os, ns, p, m);
                    let e1 = elem_with_children(a, os.take(m));
                    if ns.len() < os.len() {
                        lemma_tail_paths_elem(a, p, ns.len() as int, os.len() as int);
                    } else {
                        assert(tails == Seq::<Seq<usize>>::empty());
                        assert(os.take(m) =~= os);
                        assert(e1 == a);
                    }
                    assert(tk.skip(m) =~= Seq::<NodeModel>::empty());
                    assert(os.take(m) + tk.skip(m) =~= os.take(m));
                    lemma_nested_elem(e1, os, ns, p, m);
                    lemma_removes_concat(o, tails, nested, k);
                    lemma_below_concat(tails, nested, p);
                    assert(elem_with_children(e1, tk) == elem_with_children(a, tk));
                }
            },
            _ => {},
        },
        NodeModel::Fragment(a) => match n {
            NodeModel::Fragment(b) => if kids_keyed(a, b) {
                lemma_keyed_kids_removals(o, a, b, p);
            } else {
                let m = min_len(a.len() as int, b.len() as int);
                let tk = trunc_list(a, b, m);
                lemma_trunc_list(a, b, m);
                let tails = tail_paths(p, b.len() as int, a.len() as int);
                let nested = nested_rems(a, b, p, m);
                if b.len() < a.len() {
                    lemma_tail_paths_frag(a, p, b.len() as int, a.len() as int);
                } else {
                    assert(tails == Seq::<Seq<usize>>::empty());
                    assert(a.take(m) =~= a);
                }
                assert(tk.skip(m) =~= Seq::<NodeModel>::empty());
                assert(a.take(m) + tk.skip(m) =~= a.take(m));
                lemma_nested_frag(a.take(m), a, b, p, m);
                lemma_removes_concat(o, tails, nested, k);
                lemma_below_concat(tails, nested, p);
            },
            _ => {},
        },
        _ => {},
    }
}


// ---------------------------------------------------------------------------
// The order of the removals
// ---------------------------------------------------------------------------

proof fn lemma_less_irrefl(a: Seq<usize>, i: int)
    requires
        0 <= i,
    ensures
        !path_less_from(a, a, i),
    decreases a.len() - i,
{
    if i < a.len() {
        lemma_less_irrefl(a, i + 1);
    }
}

proof fn lemma_less_trans(a: Seq<usize>, b: Seq<usize>, c: Seq<usize>, i: int)
    requires
        0 <= i,
        path_less_from(a, b, i),
        path_less_from(b, c, i),
    ensures
        path_less_from(a, c, i),
    decreases a.len() - i,
{
    if i < a.len() && i < b.len() && i < c.len() && a[i] == b[i] && b[i] == c[i] {
        lemma_less_trans(a, b, c, i + 1);
    }
}

/// Paths that agree before index `d` and differ there are ordered by their
/// entries at `d`.
proof fn lemma_less_at(a: Seq<usize>, b: Seq<usize>, d: int, i: int)
    requires
        0 <= i <= d,
        d < a.len(),
        d < b.len(),
        forall|t: int| 0 <= t < d ==> a[t] == b[t],
        a[d] < b[d],
    ensures
        path_less_from(a, b, i),
    decreases d - i,
{
    if i < d {
        lemma_less_at(a, b, d, i + 1);
    }
}

/// Strictly decreasing.
pub open spec fn sdesc(r: Seq<Seq<usize>>) -> bool {
    forall|i: int, j: int| 0 <= i < j < r.len() ==> path_less(#[trigger] r[j], #[trigger] r[i])
}

/// Never increasing.
pub open spec fn ndesc(r: Seq<Seq<usize>>) -> bool {
    forall|i: int, j: int| 0 <= i < j < r.len() ==> !path_less(#[trigger] r[i], #[trigger] r[j])
}

proof fn lemma_sdesc_concat(a: Seq<Seq<usize>>, b: Seq<Seq<usize>>)
    requires
        sdesc(a),
        sdesc(b),
        forall|i: int, j: int| 0 <= i < a.len() && 0 <= j < b.len() ==> path_less(#[trigger] b[j], #[trigger] a[i]),
    ensures
        sdesc(a + b),
{
    assert forall|i: int, j: int| 0 <= i < j < (a + b).len() implies path_less(
        #[trigger] (a + b)[j],
        #[trigger] (a + b)[i],
    ) by {
        if j < a.len() {
            assert((a + b)[i] == a[i] && (a + b)[j] == a[j]);
        } else if i >= a.len() {
            assert((a + b)[i] == b[i - a.len()] && (a + b)[j] == b[j - a.len()]);
        } else {
            assert((a + b)[i] == a[i] && (a + b)[j] == b[j - a.len()]);
        }
    }
}

proof fn lemma_tail_paths_sdesc(p: Seq<usize>, lo: int, hi: int)
    requires
        0 <= lo,
        hi <= usize::MAX + 1,
    ensures
        sdesc(tail_paths(p, lo, hi)),
        forall|i: int| 0 <= i < tail_paths(p, lo, hi).len() ==> (#[trigger] tail_paths(p, lo, hi)[i]) == p.push(
            (hi - 1 - i) as usize,
        ),
        tail_paths(p, lo, hi).len() == if hi > lo { hi - lo } else { 0 },
    decreases hi - lo,
{
    if hi > lo {
        lemma_tail_paths_sdesc(p, lo, hi - 1);
        let rest = tail_paths(p, lo, hi - 1);
        let t = tail_paths(p, lo, hi);
        assert forall|i: int| 0 <= i < t.len() implies (#[trigger] t[i]) == p.push((hi - 1 - i) as usize) by {
            if i > 0 {
                assert(t[i] == rest[i - 1]);
            }
        }
        assert forall|i: int, j: int| 0 <= i < j < t.len() implies path_less(#[trigger] t[j], #[trigger] t[i]) by {
            let x = p.push((hi - 1 - j) as usize);
            let y = p.push((hi - 1 - i) as usize);
            assert(t[j] == x && t[i] == y);
            lemma_less_at(x, y, p.len() as int, 0);
        }
    }
}

/// Each removal path of compatible trees at `p` lies below `p`, and the list
/// is strictly decreasing.
proof fn lemma_rems_sdesc(o: NodeModel, n: NodeModel, p: Seq<usize>)
    requires
        edit_compatible(o, n),
    ensures
        sdesc(rems_s(o, n, p)),
    decreases o, n, 0int,
{
    match o {
        NodeModel::Component(a) => match n {
            NodeModel::Component(b) => {
                if !(a.name != b.name || a.props_json != b.props_json || a.key != b.key) {
                    lemma_rems_sdesc(*a.rendered, *b.rendered, p);
                }
            },
            _ => {},
        },
        NodeModel::Element(a) => match n {
            NodeModel::Element(b) => {
                if !(a.tag != b.tag || a.namespace != b.namespace || a.key != b.key) {
                    if kids_keyed(a.children, b.children) {
                        lemma_krems_sdesc(a.children, b.children, p, a.children.len() as int);
                    } else {
                        lemma_rems_list_sdesc(a.children, b.children, p);
                    }
                }
            },
            _ => {},
        },
        NodeModel::Fragment(a) => match n {
            NodeModel::Fragment(b) => {
                if kids_keyed(a, b) {
                    lemma_krems_sdesc(a, b, p, a.len() as int);
                } else {
                    lemma_rems_list_sdesc(a, b, p);
                }
            },
            _ => {},
        },
        _ => {},
    }
}

#[verifier::spinoff_prover]
#[verifier::rlimit(40)]
proof fn lemma_rems_list_sdesc(os: Seq<NodeModel>, ns: Seq<NodeModel>, p: Seq<usize>)
    requires
        os.len() <= usize::MAX,
        pairs_compatible(os, ns, min_len(os.len() as int, ns.len() as int)),
    ensures
        sdesc(tail_paths(p, ns.len() as int, os.len() as int) + nested_rems(os, ns, p, min_len(os.len() as int, ns.len() as int))),
    decreases os, ns, 1int,
{
    let m = min_len(os.len() as int, ns.len() as int);
    let tails = tail_paths(p, ns.len() as int, os.len() as int);
    let nested = nested_rems(os, ns, p, m);
    lemma_tail_paths_sdesc(p, ns.len() as int, os.len() as int);
    lemma_nested_sdesc(os, ns, p, m);
    assert forall|i: int, j: int| 0 <= i < tails.len() && 0 <= j < nested.len() implies path_less(
        #[trigger] nested[j],
        #[trigger] tails[i],
    ) by {
        let x = tails[i];
        let y = nested[j];
        assert(x == p.push((os.len() - 1 - i) as usize));
        assert(y.subrange(0, p.len() as int) == p);
        assert forall|t: int| 0 <= t < p.len() implies y[t] == x[t] by {
            assert(y[t] == y.subrange(0, p.len() as int)[t]);
        }
        lemma_less_at(y, x, p.len() as int, 0);
    }
    lemma_sdesc_concat(tails, nested);
}

#[verifier::spinoff_prover]
#[verifier::rlimit(40)]
proof fn lemma_nested_sdesc(os: Seq<NodeModel>, ns: Seq<NodeModel>, p: Seq<usize>, j: int)
    requires
        0 <= j <= min_len(os.len() as int, ns.len() as int),
        os.len() <= usize::MAX,
        pairs_compatible(os, ns, j),
    ensures
        sdesc(nested_rems(os, ns, p, j)),
        below(nested_rems(os, ns, p, j), p),
        forall|i: int|
            0 <= i < nested_rems(os, ns, p, j).len() ==> p.len() + 1 < (#[trigger] nested_rems(os, ns, p, j)[i]).len()
                && nested_rems(os, ns, p, j)[i][p.len() as int] < j,
    decreases os, ns, 0int, j,
{
    if j > 0 {
        let q = p.push((j - 1) as usize);
        let r = rems_s(os[j - 1], ns[j - 1], q);
        let rest = nested_rems(os, ns, p, j - 1);
        lemma_nested_sdesc(os, ns, p, j - 1);
        lemma_rems_sdesc(os[j - 1], ns[j - 1], q);
        lemma_removals(os[j - 1], ns[j - 1], q);
        lemma_below_push(r, p, (j - 1) as usize);
        assert forall|a: int, b: int| 0 <= a < r.len() && 0 <= b < rest.len() implies path_less(
            #[trigger] rest[b],
            #[trigger] r[a],
        ) by {
            let x = r[a];
            let y = rest[b];
            assert(x.subrange(0, p.len() as int) == p);
            assert(y.subrange(0, p.len() as int) == p);
            assert forall|t: int| 0 <= t < p.len() implies y[t] == x[t] by {
                assert(y[t] == y.subrange(0, p.len() as int)[t]);
                assert(x[t] == x.subrange(0, p.len() as int)[t]);
            }
            lemma_less_at(y, x, p.len() as int, 0);
        }
        lemma_sdesc_concat(r, rest);
        lemma_below_concat(r, rest, p);
        let all = r + rest;
        assert forall|i: int| 0 <= i < all.len() implies p.len() + 1 < (#[trigger] all[i]).len()
            && all[i][p.len() as int] < j by {
            if i < r.len() {
                assert(all[i] == r[i]);
            } else {
                assert(all[i] == rest[i - r.len()]);
            }
        }
    }
}


#[verifier::spinoff_prover]
#[verifier::rlimit(40)]
proof fn lemma_insert_desc(s: Seq<Seq<usize>>, x: Seq<usize>)
    requires
        ndesc(s),
    ensures
        insert_desc(s, x).to_multiset() == s.to_multiset().insert(x),
        ndesc(insert_desc(s, x)),
    decreases s.len(),
{
    broadcast use vstd::seq_lib::group_to_multiset_ensures, vstd::seq_lib::lemma_seq_union_to_multiset_commutative;

    let r = insert_desc(s, x);
    if s.len() == 0 {
        assert(seq![x] =~= Seq::<Seq<usize>>::empty().push(x));
    } else if path_less(s[0], x) {
        assert((seq![x] + s).to_multiset() =~= (s + seq![x]).to_multiset());
        assert(s + seq![x] =~= s.push(x));
        assert forall|i: int, j: int| 0 <= i < j < r.len() implies !path_less(#[trigger] r[i], #[trigger] r[j]) by {
            if i == 0 {
                assert(r[i] == x && r[j] == s[j - 1]);
                if path_less(x, s[j - 1]) {
                    lemma_less_trans(s[0], x, s[j - 1], 0);
                    if j - 1 == 0 {
                        lemma_less_irrefl(s[0], 0);
                    }
                }
            } else {
                assert(r[i] == s[i - 1] && r[j] == s[j - 1]);
            }
        }
    } else {
        let rest = s.drop_first();
        assert forall|i: int, j: int| 0 <= i < j < rest.len() implies !path_less(#[trigger] rest[i], #[trigger] rest[j]) by {
            assert(rest[i] == s[i + 1] && rest[j] == s[j + 1]);
        }
        lemma_insert_desc(rest, x);
        let ir = insert_desc(rest, x);
        assert(r == seq![s[0]] + ir);
        assert((seq![s[0]] + ir).to_multiset() =~= (ir + seq![s[0]]).to_multiset());
        assert(ir + seq![s[0]] =~= ir.push(s[0]));
        assert(s =~= seq![s[0]] + rest);
        assert((seq![s[0]] + rest).to_multiset() =~= (rest + seq![s[0]]).to_multiset());
        assert(rest + seq![s[0]] =~= rest.push(s[0]));
        assert(r.to_multiset() =~= s.to_multiset().insert(x));
        assert forall|i: int, j: int| 0 <= i < j < r.len() implies !path_less(#[trigger] r[i], #[trigger] r[j]) by {
            if i == 0 {
                let y = r[j];
                assert(y == ir[j - 1]);
                assert(ir.contains(y));
                assert(ir.to_multiset().count(y) > 0);
                if y != x {
                    assert(rest.to_multiset().count(y) > 0);
                    assert(rest.contains(y));
                    let t = choose|t: int| 0 <= t < rest.len() && rest[t] == y;
                    assert(s[t + 1] == y);
                }
            } else {
                assert(r[i] == ir[i - 1] && r[j] == ir[j - 1]);
            }
        }
    }
}

proof fn lemma_sort_desc(s: Seq<Seq<usize>>)
    ensures
        sort_desc(s).to_multiset() == s.to_multiset(),
        ndesc(sort_desc(s)),
    decreases s.len(),
{
    broadcast use vstd::seq_lib::group_to_multiset_ensures;

    if s.len() > 0 {
        lemma_sort_desc(s.drop_last());
        lemma_insert_desc(sort_desc(s.drop_last()), s.last());
        assert(s =~= s.drop_last().push(s.last()));
    }
}

/// A never-increasing list with the same elements as a strictly decreasing
/// one is that list.
#[verifier::spinoff_prover]
#[verifier::rlimit(40)]
proof fn lemma_sorted_unique(t: Seq<Seq<usize>>, r: Seq<Seq<usize>>)
    requires
        ndesc(t),
        sdesc(r),
        t.to_multiset() == r.to_multiset(),
    ensures
        t == r,
    decreases r.len(),
{
    broadcast use vstd::seq_lib::group_to_multiset_ensures;

    vstd::seq_lib::to_multiset_len(t);
    vstd::seq_lib::to_multiset_len(r);
    assert(t.len() == r.len());
    if r.len() > 0 {
        assert(r.contains(r[0]));
        assert(t.to_multiset().count(r[0]) > 0);
        assert(t.contains(r[0]));
        let a = choose|a: int| 0 <= a < t.len() && t[a] == r[0];
        assert(t.contains(t[0]));
        assert(r.to_multiset().count(t[0]) > 0);
        assert(r.contains(t[0]));
        let b = choose|b: int| 0 <= b < r.len() && r[b] == t[0];
        if b > 0 {
            assert(path_less(r[b], r[0]));
            if a > 0 {
                assert(!path_less(t[0], t[a]));
            } else {
                lemma_less_irrefl(r[0], 0);
            }
        }
        assert(t[0] == r[0]);
        let t1 = t.drop_first();
        let r1 = r.drop_first();
        assert(t1 =~= t.remove(0));
        assert(r1 =~= r.remove(0));
        assert(t1.to_multiset() == r1.to_multiset());
        assert forall|i: int, j: int| 0 <= i < j < t1.len() implies !path_less(#[trigger] t1[i], #[trigger] t1[j]) by {
            assert(t1[i] == t[i + 1] && t1[j] == t[j + 1]);
        }
        assert forall|i: int, j: int| 0 <= i < j < r1.len() implies path_less(#[trigger] r1[j], #[trigger] r1[i]) by {
            assert(r1[i] == r[i + 1] && r1[j] == r[j + 1]);
        }
        lemma_sorted_unique(t1, r1);
        assert(t =~= seq![t[0]] + t1);
        assert(r =~= seq![r[0]] + r1);
    }
}

// ---------------------------------------------------------------------------
// The removal paths of a patch list
// ---------------------------------------------------------------------------

proof fn lemma_rp_prefix(s: Seq<PatchModel>, t: Seq<PatchModel>, i: int)
    requires
        0 <= i <= s.len(),
        i <= t.len(),
        s.take(i) == t.take(i),
    ensures
        remove_paths(s, i) == remove_paths(t, i),
    decreases i,
{
    if i > 0 {
        assert(s[i - 1] == s.take(i)[i - 1]);
        assert(t[i - 1] == t.take(i)[i - 1]);
        assert(s.take(i - 1) =~= s.take(i).take(i - 1));
        assert(t.take(i - 1) =~= t.take(i).take(i - 1));
        lemma_rp_prefix(s, t, i - 1);
    }
}

#[verifier::spinoff_prover]
#[verifier::rlimit(40)]
proof fn lemma_rp_concat(a: Seq<PatchModel>, b: Seq<PatchModel>)
    ensures
        remove_paths(a + b, (a + b).len() as int) == remove_paths(a, a.len() as int) + remove_paths(b, b.len() as int),
    decreases b.len(),
{
    if b.len() == 0 {
        assert(a + b =~= a);
        assert(remove_paths(a, a.len() as int) + remove_paths(b, 0) =~= remove_paths(a, a.len() as int));
    } else {
        let l = (a + b).len() as int;
        let b1 = b.drop_last();
        lemma_rp_concat(a, b1);
        assert((a + b).take(l - 1) =~= (a + b1).take(l - 1));
        lemma_rp_prefix(a + b, a + b1, l - 1);
        assert(b.take(b.len() - 1) =~= b1.take(b.len() - 1));
        lemma_rp_prefix(b, b1, b.len() - 1);
        assert((a + b)[l - 1] == b[b.len() - 1]);
        let ra = remove_paths(a, a.len() as int);
        let rb1 = remove_paths(b1, b1.len() as int);
        match b[b.len() - 1] {
            PatchModel::Remove { path } => {
                assert((ra + rb1).push(path) =~= ra + rb1.push(path));
            },
            _ => {},
        }
    }
}

proof fn lemma_rp_none(ps: Seq<PatchModel>, i: int)
    requires
        no_removes(ps),
    ensures
        remove_paths(ps, i) == Seq::<Seq<usize>>::empty(),
    decreases i,
{
    if 0 < i <= ps.len() {
        lemma_rp_none(ps, i - 1);
        assert(!(ps[i - 1] is Remove));
    }
}

proof fn lemma_rp_tail(p: Seq<usize>, lo: int, hi: int)
    ensures
        remove_paths(tail_removes(p, lo, hi), tail_removes(p, lo, hi).len() as int) == tail_paths(p, lo, hi),
    decreases hi - lo,
{
    if hi > lo {
        lemma_rp_tail(p, lo, hi - 1);
        let q = p.push((hi - 1) as usize);
        let rm = PatchModel::Remove { path: q };
        lemma_rp_concat(seq![rm], tail_removes(p, lo, hi - 1));
        assert(remove_paths(seq![rm], 0) == Seq::<Seq<usize>>::empty());
        assert(remove_paths(seq![rm], 1) =~= seq![q]);
    }
}

proof fn lemma_creates_no_removes(ns: Seq<NodeModel>, p: Seq<usize>, lo: int, j: int)
    ensures
        no_removes(tail_creates(ns, p, lo, j)),
    decreases j - lo,
{
    if j > lo {
        lemma_creates_no_removes(ns, p, lo, j - 1);
        let c = PatchModel::Create { path: p, index: (j - 1) as usize, node: ns[j - 1] };
        let all = tail_creates(ns, p, lo, j - 1) + seq![c];
        assert forall|i: int| 0 <= i < all.len() implies !(#[trigger] all[i] is Remove) by {
            if i < all.len() - 1 {
                assert(all[i] == tail_creates(ns, p, lo, j - 1)[i]);
            }
        }
    }
}

pub open spec fn rp(ps: Seq<PatchModel>) -> Seq<Seq<usize>> {
    remove_paths(ps, ps.len() as int)
}

/// The removal paths of the diff of compatible trees are those of `rems_s`,
/// in another order.
#[verifier::spinoff_prover]
#[verifier::rlimit(40)]
proof fn lemma_rp_round(o: NodeModel, n: NodeModel, p: Seq<usize>, np: Seq<usize>)
    requires
        edit_compatible(o, n),
    ensures
        rp(diff_node_s(o, n, p, np)).to_multiset() == rems_s(o, n, p).to_multiset(),
    decreases o, n, 0int,
{
    broadcast use vstd::seq_lib::lemma_multiset_commutative;
    broadcast use vstd::multiset::group_multiset_axioms;

    let rep = PatchModel::Replace { path: np, new: n };
    match o {
        NodeModel::Element(a) => match n {
            NodeModel::Element(b) => {
                if a.tag != b.tag || a.namespace != b.namespace || a.key != b.key {
                    lemma_single(o, rep, np);
                    lemma_rp_none(seq![rep], 1);
                } else if kids_keyed(a.children, b.children) {
                    let attrs_ps = diff_attrs_s(a.attrs, b.attrs, np);
                    let ls_ps = diff_listeners_s(a.listeners, b.listeners, np);
                    let kid_ps = diff_children_s(a.children, b.children, p, np);
                    lemma_attrs_run(a, b.attrs, np);
                    lemma_listeners_run(elem_with_attrs(a, b.attrs), b.listeners, np);
                    lemma_rp_none(attrs_ps, attrs_ps.len() as int);
                    lemma_rp_none(ls_ps, ls_ps.len() as int);
                    lemma_rp_keyed_kids(a.children, b.children, p, np);
                    lemma_rp_concat(attrs_ps, ls_ps);
                    lemma_rp_concat(attrs_ps + ls_ps, kid_ps);
                    assert(rp(diff_node_s(o, n, p, np)) =~= rp(kid_ps));
                } else {
                    let os = a.children;
                    let ns = b.children;
                    let m = min_len(os.len() as int, ns.len() as int);
                    let attrs_ps = diff_attrs_s(a.attrs, b.attrs, np);
                    let ls_ps = diff_listeners_s(a.listeners, b.listeners, np);
                    lemma_attrs_run(a, b.attrs, np);
                    lemma_listeners_run(elem_with_attrs(a, b.attrs), b.listeners, np);
                    lemma_rp_none(attrs_ps, attrs_ps.len() as int);
                    lemma_rp_none(ls_ps, ls_ps.len() as int);
                    lemma_children_positional(os, ns, p, np);
                    let pairs = positional_pairs(os, ns, p, np, m);
                    let rems = tail_removes(p, ns.len() as int, os.len() as int);
                    let creates = tail_creates(ns, np, os.len() as int, ns.len() as int);
                    lemma_creates_no_removes(ns, np, os.len() as int, ns.len() as int);
                    lemma_rp_none(creates, creates.len() as int);
                    lemma_rp_tail(p, ns.len() as int, os.len() as int);
                    lemma_rp_pairs(os, ns, p, np, m);
                    lemma_rp_concat(attrs_ps, ls_ps);
                    lemma_rp_concat(pairs, rems);
                    lemma_rp_concat(pairs + rems, creates);
                    lemma_rp_concat(attrs_ps + ls_ps, pairs + rems + creates);
                    let tails = tail_paths(p, ns.len() as int, os.len() as int);
                    let nested = nested_rems(os, ns, p, m);
                    assert(rp(diff_node_s(o, n, p, np)) =~= rp(pairs) + tails);
                    assert((rp(pairs) + tails).to_multiset() =~= (tails + nested).to_multiset());
                }
            },
            _ => {
                lemma_single(o, rep, np);
                lemma_rp_none(seq![rep], 1);
            },
        },
        NodeModel::Fragment(a) => match n {
            NodeModel::Fragment(b) => if kids_keyed(a, b) {
                lemma_rp_keyed_kids(a, b, p, np);
            } else {
                let m = min_len(a.len() as int, b.len() as int);
                lemma_children_positional(a, b, p, np);
                let pairs = positional_pairs(a, b, p, np, m);
                let rems = tail_removes(p, b.len() as int, a.len() as int);
                let creates = tail_creates(b, np, a.len() as int, b.len() as int);
                lemma_creates_no_removes(b, np, a.len() as int, b.len() as int);
                lemma_rp_none(creates, creates.len() as int);
                lemma_rp_tail(p, b.len() as int, a.len() as int);
                lemma_rp_pairs(a, b, p, np, m);
                lemma_rp_concat(pairs, rems);
                lemma_rp_concat(pairs + rems, creates);
                let tails = tail_paths(p, b.len() as int, a.len() as int);
                let nested = nested_rems(a, b, p, m);
                assert(rp(diff_node_s(o, n, p, np)) =~= rp(pairs) + tails);
                assert((rp(pairs) + tails).to_multiset() =~= (tails + nested).to_multiset());
            },
            _ => {
                lemma_single(o, rep, np);
                lemma_rp_none(seq![rep], 1);
            },
        },
        NodeModel::Text(x) => match n {
            NodeModel::Text(y) => {
                if x != y {
                    let st = PatchModel::SetText { path: np, text: y };
                    lemma_single(o, st, np);
                    lemma_rp_none(seq![st], 1);
                }
            },
            _ => {
                lemma_single(o, rep, np);
                lemma_rp_none(seq![rep], 1);
            },
        },
        NodeModel::Empty => match n {
            NodeModel::Empty => {},
            _ => {
                lemma_single(o, rep, np);
                lemma_rp_none(seq![rep], 1);
            },
        },
        NodeModel::Component(a) => match n {
            NodeModel::Component(b) => {
                if a.name != b.name || a.props_json != b.props_json || a.key != b.key {
                    lemma_single(o, rep, np);
                    lemma_rp_none(seq![rep], 1);
                } else {
                    lemma_rp_round(*a.rendered, *b.rendered, p, np);
                }
            },
            _ => {
                lemma_replaced(*a.rendered, n, p, np);
                lemma_single(o, rep, np);
                lemma_rp_none(seq![rep], 1);
            },
        },
    }
}

proof fn lemma_rp_pairs(os: Seq<NodeModel>, ns: Seq<NodeModel>, p: Seq<usize>, np: Seq<usize>, j: int)
    requires
        0 <= j <= min_len(os.len() as int, ns.len() as int),
        pairs_compatible(os, ns, j),
    ensures
        rp(positional_pairs(os, ns, p, np, j)).to_multiset() == nested_rems(os, ns, p, j).to_multiset(),
    decreases os, ns, j,
{
    broadcast use vstd::seq_lib::lemma_multiset_commutative;
    broadcast use vstd::multiset::group_multiset_axioms;

    if j > 0 {
        let q = p.push((j - 1) as usize);
        let d = diff_node_s(os[j - 1], ns[j - 1], q, np.push((j - 1) as usize));
        lemma_rp_pairs(os, ns, p, np, j - 1);
        lemma_rp_round(os[j - 1], ns[j - 1], q, np.push((j - 1) as usize));
        lemma_rp_concat(positional_pairs(os, ns, p, np, j - 1), d);
        let a = rp(positional_pairs(os, ns, p, np, j - 1));
        let r = rems_s(os[j - 1], ns[j - 1], q);
        let rest = nested_rems(os, ns, p, j - 1);
        assert((a + rp(d)).to_multiset() =~= (r + rest).to_multiset());
    }
}

// ---------------------------------------------------------------------------
// Keyed child lists
// ---------------------------------------------------------------------------

/// The two child lists are diffed by key: they are not both empty and every
/// child on both sides carries a key.
pub open spec fn kids_keyed(os: Seq<NodeModel>, ns: Seq<NodeModel>) -> bool {
    !(os.len() == 0 && ns.len() == 0) && all_keyed(os) && all_keyed(ns)
}

/// Each matched pair among the first `j` new children is compatible.
pub open spec fn kpairs_compatible(os: Seq<NodeModel>, ns: Seq<NodeModel>, j: int) -> bool
    decreases os, ns, j,
{
    if j <= 0 || j > ns.len() {
        true
    } else {
        &&& kpairs_compatible(os, ns, j - 1)
        &&& (new_matched(os, ns, j - 1) && 0 <= partner(os, ns, j - 1) < os.len()) ==> edit_compatible(
            os[partner(os, ns, j - 1)],
            ns[j - 1],
        )
    }
}

/// The truncated old children from index `i` on that have a partner at new
/// index `j` or later, in old order.
pub open spec fn kept_from(os: Seq<NodeModel>, ns: Seq<NodeModel>, i: int, j: int) -> Seq<NodeModel>
    decreases os, ns, os.len() - i,
{
    if i < 0 || i >= os.len() {
        Seq::empty()
    } else {
        (if old_matched(os, ns, i) && j <= inv(os, ns, i) < ns.len() {
            seq![trunc(os[i], ns[inv(os, ns, i)])]
        } else {
            Seq::empty()
        }) + kept_from(os, ns, i + 1, j)
    }
}

/// The keyed child list once the new children without partner are in:
/// each matched new child's place holds its truncated partner.
pub open spec fn mix(os: Seq<NodeModel>, ns: Seq<NodeModel>) -> Seq<NodeModel> {
    Seq::new(
        ns.len(),
        |t: int|
            if new_matched(os, ns, t) && 0 <= partner(os, ns, t) < os.len() {
                trunc(os[partner(os, ns, t)], ns[t])
            } else {
                ns[t]
            },
    )
}

/// The new child whose partner is the old child at `i`.
pub open spec fn inv(os: Seq<NodeModel>, ns: Seq<NodeModel>, i: int) -> int {
    choose|t: int| 0 <= t < ns.len() && new_matched(os, ns, t) && partner(os, ns, t) == i
}

/// The removal paths for the old keyed children below index `i`, last child
/// first: the path of a child without partner, or the removal paths inside
/// a child with one.
pub open spec fn krems(os: Seq<NodeModel>, ns: Seq<NodeModel>, p: Seq<usize>, i: int) -> Seq<Seq<usize>>
    decreases os, ns, i,
{
    if i <= 0 || i > os.len() {
        Seq::empty()
    } else {
        (if old_matched(os, ns, i - 1) {
            let j = inv(os, ns, i - 1);
            if 0 <= j < ns.len() {
                rems_s(os[i - 1], ns[j], p.push((i - 1) as usize))
            } else {
                Seq::empty()
            }
        } else {
            seq![p.push((i - 1) as usize)]
        }) + krems(os, ns, p, i - 1)
    }
}

/// The paths of the old keyed children below index `i` without partner,
/// last first.
pub open spec fn unmatched_paths(os: Seq<NodeModel>, ns: Seq<NodeModel>, p: Seq<usize>, i: int) -> Seq<Seq<usize>>
    decreases i,
{
    if i <= 0 {
        Seq::empty()
    } else {
        (if old_matched(os, ns, i - 1) {
            Seq::empty()
        } else {
            seq![p.push((i - 1) as usize)]
        }) + unmatched_paths(os, ns, p, i - 1)
    }
}

/// The removal paths inside the matched pairs among the first `j` new
/// children whose partner lies below index `x`, in new order.
pub open spec fn pair_rems(os: Seq<NodeModel>, ns: Seq<NodeModel>, p: Seq<usize>, j: int, x: int) -> Seq<Seq<usize>>
    decreases j,
{
    if j <= 0 || j > ns.len() {
        Seq::empty()
    } else {
        pair_rems(os, ns, p, j - 1, x) + {
            let q = partner(os, ns, j - 1);
            if new_matched(os, ns, j - 1) && 0 <= q < os.len() && q < x {
                rems_s(os[q], ns[j - 1], p.push(q as usize))
            } else {
                Seq::empty()
            }
        }
    }
}

/// A node that holds a child list of its own.
pub open spec fn holder(h: NodeModel) -> bool {
    h is Element || h is Fragment
}

proof fn lemma_holder(h: NodeModel, a: Seq<NodeModel>, b: Seq<NodeModel>)
    requires
        holder(h),
    ensures
        kids_of(h) is Some,
        kids_of(put_kids(h, a)) == Some(a),
        put_kids(put_kids(h, a), b) == put_kids(h, b),
        holder(put_kids(h, a)),
        put_kids(h, kids_of(h)->0) == h,
{
    match h {
        NodeModel::Element(e) => {
            assert(elem_with_children(e, e.children) == e);
        },
        _ => {},
    }
}

proof fn lemma_descend_h(h: NodeModel, ps: Seq<PatchModel>, k: int, i: int)
    requires
        holder(h),
        0 <= k,
        0 <= i < kids_of(h)->0.len(),
        forall|j: int|
            0 <= j < ps.len() && !(ps[j] is Remove) ==> k < path_of(#[trigger] ps[j]).len() && path_of(ps[j])[k]
                == i,
    ensures
        run_at(h, ps, k) == match run_at(kids_of(h)->0[i], ps, k + 1) {
            Ok(c) => Ok(put_kids(h, kids_of(h)->0.update(i, c))),
            Err(m) => Err(m),
        },
{
    match h {
        NodeModel::Element(e) => {
            lemma_descend_elem(e, ps, k, i);
        },
        NodeModel::Fragment(c) => {
            lemma_descend_frag(c, ps, k, i);
        },
        _ => {},
    }
}

proof fn lemma_removes_descend_h(h: NodeModel, r: Seq<Seq<usize>>, k: int, i: int)
    requires
        holder(h),
        0 <= k,
        0 <= i < kids_of(h)->0.len(),
        forall|j: int| 0 <= j < r.len() ==> k + 1 < (#[trigger] r[j]).len() && r[j][k] == i,
    ensures
        run_removes(h, r, k) == match run_removes(kids_of(h)->0[i], r, k + 1) {
            Ok(c) => Ok(put_kids(h, kids_of(h)->0.update(i, c))),
            Err(m) => Err(m),
        },
{
    match h {
        NodeModel::Element(e) => {
            lemma_removes_descend_elem(e, r, k, i);
        },
        NodeModel::Fragment(c) => {
            lemma_removes_descend_frag(c, r, k, i);
        },
        _ => {},
    }
}

proof fn lemma_first_key_found(s: Seq<NodeModel>, k: Seq<char>, i: int)
    requires
        0 <= i,
    ensures
        first_key_from(s, k, i) == -1 || (i <= first_key_from(s, k, i) < s.len() && key_of(
            s[first_key_from(s, k, i)],
        ) == Some(k)),
    decreases s.len() - i,
{
    if i < s.len() && key_of(s[i]) != Some(k) {
        lemma_first_key_found(s, k, i + 1);
    }
}

/// A matched new child's partner is an old child with its key.
proof fn lemma_partner(os: Seq<NodeModel>, ns: Seq<NodeModel>, j: int)
    requires
        0 <= j < ns.len(),
        new_matched(os, ns, j),
    ensures
        0 <= partner(os, ns, j) < os.len(),
        key_of(os[partner(os, ns, j)]) == key_of(ns[j]),
{
    lemma_first_key_found(os, key_or_empty(ns[j]), 0);
}

proof fn lemma_kpairs_at(os: Seq<NodeModel>, ns: Seq<NodeModel>, j: int, t: int)
    requires
        kpairs_compatible(os, ns, j),
        0 <= t < j <= ns.len(),
        new_matched(os, ns, t),
    ensures
        edit_compatible(os[partner(os, ns, t)], ns[t]),
    decreases j,
{
    lemma_partner(os, ns, t);
    if t < j - 1 {
        lemma_kpairs_at(os, ns, j - 1, t);
    }
}

/// Two matched new children have different partners.
proof fn lemma_partner_inj(os: Seq<NodeModel>, ns: Seq<NodeModel>, j1: int, j2: int)
    requires
        0 <= j1 < ns.len(),
        0 <= j2 < ns.len(),
        j1 != j2,
        new_matched(os, ns, j1),
        new_matched(os, ns, j2),
    ensures
        partner(os, ns, j1) != partner(os, ns, j2),
{
    lemma_partner(os, ns, j1);
    lemma_partner(os, ns, j2);
    if partner(os, ns, j1) == partner(os, ns, j2) {
        if j1 < j2 {
            assert(key_seen_before(ns, key_or_empty(ns[j2]), j2));
        } else {
            assert(key_seen_before(ns, key_or_empty(ns[j1]), j1));
        }
    }
}

/// The new child matched with an old one is the one `inv` picks.
proof fn lemma_inv(os: Seq<NodeModel>, ns: Seq<NodeModel>, j: int)
    requires
        0 <= j < ns.len(),
        new_matched(os, ns, j),
    ensures
        old_matched(os, ns, partner(os, ns, j)),
        inv(os, ns, partner(os, ns, j)) == j,
{
    let x = partner(os, ns, j);
    assert(old_matched(os, ns, x));
    let t = inv(os, ns, x);
    if t != j {
        lemma_partner_inj(os, ns, t, j);
    }
}

/// Truncation keeps the key.
proof fn lemma_key_trunc(o: NodeModel, n: NodeModel)
    ensures
        key_of(trunc(o, n)) == key_of(o),
{
}

/// The keyed removals are skipped by the edits that follow the removals.
proof fn lemma_kremoves_skip(n: NodeModel, os: Seq<NodeModel>, ns: Seq<NodeModel>, op: Seq<usize>, np: Seq<usize>, i: int)
    ensures
        run_at(n, keyed_removes(os, ns, op, i), np.len() as int) == Ok::<NodeModel, Seq<char>>(n),
        under(keyed_removes(os, ns, op, i), np),
    decreases i,
{
    let k = np.len() as int;
    if i > 0 {
        lemma_kremoves_skip(n, os, ns, op, np, i - 1);
        let rest = keyed_removes(os, ns, op, i - 1);
        if old_matched(os, ns, i - 1) {
            assert(keyed_removes(os, ns, op, i) =~= rest);
        } else {
            let rm = PatchModel::Remove { path: op.push((i - 1) as usize) };
            assert(seq![rm].drop_last() =~= Seq::<PatchModel>::empty());
            assert(run_at(n, Seq::<PatchModel>::empty(), k) == Ok::<NodeModel, Seq<char>>(n));
            assert(run_at(n, seq![rm], k) == Ok::<NodeModel, Seq<char>>(n));
            lemma_run_concat(n, seq![rm], rest, k);
            assert(under(seq![rm], np)) by {
                assert forall|t: int| 0 <= t < seq![rm].len() && !(seq![rm][t] is Remove) implies np.len()
                    <= path_of(#[trigger] seq![rm][t]).len() && path_of(seq![rm][t]).subrange(0, np.len() as int)
                    == np by {
                    assert(seq![rm][t] == rm);
                }
            }
            lemma_under_concat_any(seq![rm], rest, np);
        }
    }
}

/// The matched pairs, diffed in new order, turn `mix` into the new list.
#[verifier::spinoff_prover]
#[verifier::rlimit(60)]
proof fn lemma_kpairs(h: NodeModel, os: Seq<NodeModel>, ns: Seq<NodeModel>, op: Seq<usize>, np: Seq<usize>, j: int)
    requires
        holder(h),
        0 <= j <= ns.len(),
        ns.len() <= usize::MAX,
        kpairs_compatible(os, ns, j),
        kids_of(h) == Some(mix(os, ns)),
    ensures
        run_at(h, keyed_pairs(os, ns, op, np, j), np.len() as int) == Ok::<NodeModel, Seq<char>>(
            put_kids(h, ns.take(j) + mix(os, ns).skip(j)),
        ),
        under(keyed_pairs(os, ns, op, np, j), np),
    decreases os, ns, j,
{
    let k = np.len() as int;
    let mx = mix(os, ns);
    lemma_holder(h, mx, mx);
    if j == 0 {
        assert(ns.take(0) + mx.skip(0) =~= mx);
    } else {
        lemma_kpairs(h, os, ns, op, np, j - 1);
        let ks1 = ns.take(j - 1) + mx.skip(j - 1);
        let s1 = put_kids(h, ks1);
        let prev = keyed_pairs(os, ns, op, np, j - 1);
        lemma_holder(h, ks1, ks1);
        if new_matched(os, ns, j - 1) {
            lemma_partner(os, ns, j - 1);
            lemma_kpairs_at(os, ns, j, j - 1);
            let x = partner(os, ns, j - 1);
            let q = np.push((j - 1) as usize);
            let d = diff_node_s(os[x], ns[j - 1], op.push(x as usize), q);
            lemma_round(os[x], ns[j - 1], op.push(x as usize), q);
            lemma_under_push(d, np, (j - 1) as usize);
            assert(ks1[j - 1] == mx[j - 1]);
            assert(mx[j - 1] == trunc(os[x], ns[j - 1]));
            lemma_descend_h(s1, d, k, j - 1);
            let ks2 = ks1.update(j - 1, ns[j - 1]);
            assert(ks2 =~= ns.take(j) + mx.skip(j));
            lemma_holder(h, ks1, ks2);
            lemma_run_concat(h, prev, d, k);
            lemma_under_concat_any(prev, d, np);
            assert(keyed_pairs(os, ns, op, np, j) =~= prev + d);
        } else {
            assert(keyed_pairs(os, ns, op, np, j) =~= prev);
            assert(mx[j - 1] == ns[j - 1]);
            assert(ks1 =~= ns.take(j) + mx.skip(j));
        }
    }
}

/// The keyed removals, last old child first, turn the old list into the
/// kept old children.
#[verifier::spinoff_prover]
#[verifier::rlimit(60)]
proof fn lemma_kremovals(h: NodeModel, os: Seq<NodeModel>, ns: Seq<NodeModel>, op: Seq<usize>, i: int)
    requires
        holder(h),
        0 <= i <= os.len(),
        os.len() <= usize::MAX,
        kpairs_compatible(os, ns, ns.len() as int),
        kids_of(h) == Some(os.take(i) + kept_from(os, ns, i, 0)),
    ensures
        run_removes(h, krems(os, ns, op, i), op.len() as int) == Ok::<NodeModel, Seq<char>>(
            put_kids(h, kept_from(os, ns, 0, 0)),
        ),
        below(krems(os, ns, op, i), op),
    decreases os, ns, i,
{
    let k = op.len() as int;
    let ks = os.take(i) + kept_from(os, ns, i, 0);
    lemma_holder(h, ks, kept_from(os, ns, 0, 0));
    if i == 0 {
        assert(ks =~= kept_from(os, ns, 0, 0));
    } else {
        let rest = krems(os, ns, op, i - 1);
        let q = op.push((i - 1) as usize);
        if old_matched(os, ns, i - 1) {
            let jstar = inv(os, ns, i - 1);
            lemma_partner(os, ns, jstar);
            lemma_kpairs_at(os, ns, ns.len() as int, jstar);
            let r = rems_s(os[i - 1], ns[jstar], q);
            lemma_removals(os[i - 1], ns[jstar], q);
            lemma_below_push(r, op, (i - 1) as usize);
            assert(ks[i - 1] == os[i - 1]);
            lemma_removes_descend_h(h, r, k, i - 1);
            let t = trunc(os[i - 1], ns[jstar]);
            assert(kept_from(os, ns, i - 1, 0) == seq![t] + kept_from(os, ns, i, 0));
            let ks1 = ks.update(i - 1, t);
            assert(ks1 =~= os.take(i - 1) + kept_from(os, ns, i - 1, 0));
            lemma_holder(h, ks1, kept_from(os, ns, 0, 0));
            let h1 = put_kids(h, ks1);
            lemma_kremovals(h1, os, ns, op, i - 1);
            lemma_removes_concat(h, r, rest, k);
            lemma_below_concat(r, rest, op);
            assert(krems(os, ns, op, i) == r + rest);
        } else {
            assert(kept_from(os, ns, i - 1, 0) =~= kept_from(os, ns, i, 0));
            assert(q.drop_last() =~= op);
            assert(seq![q].drop_last() =~= Seq::<Seq<usize>>::empty());
            assert(run_removes(h, Seq::<Seq<usize>>::empty(), k) == Ok::<NodeModel, Seq<char>>(h));
            let ks1 = ks.remove(i - 1);
            assert(ks1 =~= os.take(i - 1) + kept_from(os, ns, i - 1, 0));
            assert(run_removes(h, seq![q], k) == Ok::<NodeModel, Seq<char>>(put_kids(h, ks1)));
            lemma_holder(h, ks1, kept_from(os, ns, 0, 0));
            let h1 = put_kids(h, ks1);
            lemma_kremovals(h1, os, ns, op, i - 1);
            lemma_removes_concat(h, seq![q], rest, k);
            assert(q.subrange(0, k) =~= op);
            assert(below(seq![q], op));
            lemma_below_concat(seq![q], rest, op);
        }
    }
}

/// The keyed removal paths are strictly decreasing and lie below `p`.
#[verifier::spinoff_prover]
#[verifier::rlimit(40)]
proof fn lemma_krems_sdesc(os: Seq<NodeModel>, ns: Seq<NodeModel>, p: Seq<usize>, i: int)
    requires
        0 <= i <= os.len(),
        os.len() <= usize::MAX,
        kpairs_compatible(os, ns, ns.len() as int),
    ensures
        sdesc(krems(os, ns, p, i)),
        below(krems(os, ns, p, i), p),
        forall|t: int|
            0 <= t < krems(os, ns, p, i).len() ==> p.len() < (#[trigger] krems(os, ns, p, i)[t]).len() && krems(
                os,
                ns,
                p,
                i,
            )[t][p.len() as int] < i,
    decreases os, ns, 0int, i,
{
    if i > 0 {
        let rest = krems(os, ns, p, i - 1);
        let q = p.push((i - 1) as usize);
        lemma_krems_sdesc(os, ns, p, i - 1);
        let x = if old_matched(os, ns, i - 1) {
            rems_s(os[i - 1], ns[inv(os, ns, i - 1)], q)
        } else {
            seq![q]
        };
        if old_matched(os, ns, i - 1) {
            let jstar = inv(os, ns, i - 1);
            lemma_partner(os, ns, jstar);
            lemma_kpairs_at(os, ns, ns.len() as int, jstar);
            lemma_rems_sdesc(os[i - 1], ns[jstar], q);
            lemma_removals(os[i - 1], ns[jstar], q);
            lemma_below_push(x, p, (i - 1) as usize);
        } else {
            assert(q.subrange(0, p.len() as int) =~= p);
            assert(below(x, p));
        }
        assert(krems(os, ns, p, i) == x + rest);
        assert forall|a: int| 0 <= a < x.len() implies p.len() < (#[trigger] x[a]).len() && x[a][p.len() as int] == i
            - 1 by {
            if !old_matched(os, ns, i - 1) {
                assert(x[a] == q);
            }
        }
        assert forall|a: int, b: int| 0 <= a < x.len() && 0 <= b < rest.len() implies path_less(
            #[trigger] rest[b],
            #[trigger] x[a],
        ) by {
            let u = x[a];
            let v = rest[b];
            assert(u.subrange(0, p.len() as int) == p);
            assert(v.subrange(0, p.len() as int) == p);
            assert forall|t: int| 0 <= t < p.len() implies v[t] == u[t] by {
                assert(v[t] == v.subrange(0, p.len() as int)[t]);
                assert(u[t] == u.subrange(0, p.len() as int)[t]);
            }
            lemma_less_at(v, u, p.len() as int, 0);
        }
        lemma_sdesc_concat(x, rest);
        lemma_below_concat(x, rest, p);
        let all = x + rest;
        assert forall|t: int| 0 <= t < all.len() implies p.len() < (#[trigger] all[t]).len() && all[t][p.len() as int]
            < i by {
            if t < x.len() {
                assert(all[t] == x[t]);
            } else {
                assert(all[t] == rest[t - x.len()]);
            }
        }
    }
}

proof fn lemma_rp_kremoves(os: Seq<NodeModel>, ns: Seq<NodeModel>, op: Seq<usize>, i: int)
    ensures
        rp(keyed_removes(os, ns, op, i)) == unmatched_paths(os, ns, op, i),
    decreases i,
{
    if i > 0 {
        lemma_rp_kremoves(os, ns, op, i - 1);
        let rest = keyed_removes(os, ns, op, i - 1);
        if old_matched(os, ns, i - 1) {
            assert(keyed_removes(os, ns, op, i) =~= rest);
            assert(unmatched_paths(os, ns, op, i) =~= unmatched_paths(os, ns, op, i - 1));
        } else {
            let q = op.push((i - 1) as usize);
            let rm = PatchModel::Remove { path: q };
            lemma_rp_concat(seq![rm], rest);
            assert(remove_paths(seq![rm], 0) == Seq::<Seq<usize>>::empty());
            assert(remove_paths(seq![rm], 1) =~= seq![q]);
        }
    }
}

proof fn lemma_pair_rems_low(os: Seq<NodeModel>, ns: Seq<NodeModel>, p: Seq<usize>, j: int, x: int)
    requires
        x <= 0,
    ensures
        pair_rems(os, ns, p, j, x) == Seq::<Seq<usize>>::empty(),
    decreases j,
{
    if 0 < j <= ns.len() {
        lemma_pair_rems_low(os, ns, p, j - 1, x);
        assert(pair_rems(os, ns, p, j, x) =~= pair_rems(os, ns, p, j - 1, x));
    }
}

proof fn lemma_pair_rems_skip(os: Seq<NodeModel>, ns: Seq<NodeModel>, p: Seq<usize>, j: int, x: int)
    requires
        forall|t: int| 0 <= t < j && #[trigger] new_matched(os, ns, t) ==> partner(os, ns, t) != x,
    ensures
        pair_rems(os, ns, p, j, x + 1) == pair_rems(os, ns, p, j, x),
    decreases j,
{
    if 0 < j <= ns.len() {
        lemma_pair_rems_skip(os, ns, p, j - 1, x);
    }
}

#[verifier::spinoff_prover]
#[verifier::rlimit(40)]
proof fn lemma_pair_rems_add(os: Seq<NodeModel>, ns: Seq<NodeModel>, p: Seq<usize>, j: int, jstar: int)
    requires
        0 <= jstar < ns.len(),
        new_matched(os, ns, jstar),
        0 <= j <= ns.len(),
    ensures
        j <= jstar ==> pair_rems(os, ns, p, j, partner(os, ns, jstar) + 1) == pair_rems(os, ns, p, j, partner(os, ns, jstar)),
        j > jstar ==> pair_rems(os, ns, p, j, partner(os, ns, jstar) + 1).to_multiset() == pair_rems(
            os,
            ns,
            p,
            j,
            partner(os, ns, jstar),
        ).to_multiset().add(
            rems_s(os[partner(os, ns, jstar)], ns[jstar], p.push(partner(os, ns, jstar) as usize)).to_multiset(),
        ),
    decreases j,
{
    broadcast use vstd::seq_lib::lemma_multiset_commutative;
    broadcast use vstd::multiset::group_multiset_axioms;

    let x = partner(os, ns, jstar);
    lemma_partner(os, ns, jstar);
    let r = rems_s(os[x], ns[jstar], p.push(x as usize));
    if j > 0 {
        lemma_pair_rems_add(os, ns, p, j - 1, jstar);
        let t = j - 1;
        let a0 = pair_rems(os, ns, p, t, x + 1);
        let b0 = pair_rems(os, ns, p, t, x);
        if t == jstar {
            assert(pair_rems(os, ns, p, j, x + 1) == a0 + r);
            assert(pair_rems(os, ns, p, j, x) =~= b0);
        } else {
            if new_matched(os, ns, t) {
                lemma_partner_inj(os, ns, t, jstar);
            }
            let pc = pair_rems(os, ns, p, j, x).subrange(b0.len() as int, pair_rems(os, ns, p, j, x).len() as int);
            assert(pair_rems(os, ns, p, j, x) =~= b0 + pc);
            assert(pair_rems(os, ns, p, j, x + 1) =~= a0 + pc);
            if t > jstar {
                assert((a0 + pc).to_multiset() =~= (b0 + pc).to_multiset().add(r.to_multiset()));
            }
        }
    }
}

/// The keyed removal paths are the paths of the old children without
/// partner together with the removal paths inside the matched pairs.
#[verifier::spinoff_prover]
#[verifier::rlimit(40)]
proof fn lemma_krems_ms(os: Seq<NodeModel>, ns: Seq<NodeModel>, p: Seq<usize>, i: int)
    requires
        0 <= i <= os.len(),
    ensures
        krems(os, ns, p, i).to_multiset() == unmatched_paths(os, ns, p, i).to_multiset().add(
            pair_rems(os, ns, p, ns.len() as int, i).to_multiset(),
        ),
    decreases i,
{
    broadcast use vstd::seq_lib::lemma_multiset_commutative;
    broadcast use vstd::multiset::group_multiset_axioms;

    let n = ns.len() as int;
    if i == 0 {
        broadcast use vstd::seq_lib::group_to_multiset_ensures;

        lemma_pair_rems_low(os, ns, p, n, 0);
        assert(krems(os, ns, p, 0) == Seq::<Seq<usize>>::empty());
        assert(unmatched_paths(os, ns, p, 0) == Seq::<Seq<usize>>::empty());
        assert(Seq::<Seq<usize>>::empty().to_multiset() =~= vstd::multiset::Multiset::<Seq<usize>>::empty());
    } else {
        lemma_krems_ms(os, ns, p, i - 1);
        let q = p.push((i - 1) as usize);
        let rest = krems(os, ns, p, i - 1);
        if old_matched(os, ns, i - 1) {
            let jstar = inv(os, ns, i - 1);
            lemma_pair_rems_add(os, ns, p, n, jstar);
            let r = rems_s(os[i - 1], ns[jstar], q);
            assert(krems(os, ns, p, i) == r + rest);
            assert(unmatched_paths(os, ns, p, i) =~= unmatched_paths(os, ns, p, i - 1));
            assert((r + rest).to_multiset() =~= unmatched_paths(os, ns, p, i).to_multiset().add(
                pair_rems(os, ns, p, n, i).to_multiset(),
            ));
        } else {
            assert forall|t: int| 0 <= t < n && #[trigger] new_matched(os, ns, t) implies partner(os, ns, t) != i
                - 1 by {
                if partner(os, ns, t) == i - 1 {
                    assert(old_matched(os, ns, i - 1));
                }
            }
            lemma_pair_rems_skip(os, ns, p, n, i - 1);
            assert(krems(os, ns, p, i) == seq![q] + rest);
            assert(unmatched_paths(os, ns, p, i) == seq![q] + unmatched_paths(os, ns, p, i - 1));
            assert((seq![q] + rest).to_multiset() =~= (seq![q] + unmatched_paths(os, ns, p, i - 1)).to_multiset().add(
                pair_rems(os, ns, p, n, i).to_multiset(),
            ));
        }
    }
}

/// The removal paths of the matched pairs' diffs are those inside the
/// pairs, in another order.
#[verifier::spinoff_prover]
#[verifier::rlimit(40)]
proof fn lemma_rp_kpairs(os: Seq<NodeModel>, ns: Seq<NodeModel>, op: Seq<usize>, np: Seq<usize>, j: int)
    requires
        0 <= j <= ns.len(),
        kpairs_compatible(os, ns, j),
    ensures
        rp(keyed_pairs(os, ns, op, np, j)).to_multiset() == pair_rems(os, ns, op, j, os.len() as int).to_multiset(),
    decreases os, ns, j,
{
    broadcast use vstd::seq_lib::lemma_multiset_commutative;
    broadcast use vstd::multiset::group_multiset_axioms;

    if j > 0 {
        lemma_rp_kpairs(os, ns, op, np, j - 1);
        let prev = keyed_pairs(os, ns, op, np, j - 1);
        let before = pair_rems(os, ns, op, j - 1, os.len() as int);
        if new_matched(os, ns, j - 1) {
            lemma_partner(os, ns, j - 1);
            lemma_kpairs_at(os, ns, j, j - 1);
            let x = partner(os, ns, j - 1);
            let d = diff_node_s(os[x], ns[j - 1], op.push(x as usize), np.push((j - 1) as usize));
            lemma_rp_round(os[x], ns[j - 1], op.push(x as usize), np.push((j - 1) as usize));
            let r = rems_s(os[x], ns[j - 1], op.push(x as usize));
            assert(pair_rems(os, ns, op, j, os.len() as int) == before + r);
            lemma_rp_concat(prev, d);
            assert(keyed_pairs(os, ns, op, np, j) =~= prev + d);
            assert((rp(prev) + rp(d)).to_multiset() =~= (before + r).to_multiset());
        } else {
            assert(keyed_pairs(os, ns, op, np, j) =~= prev);
            assert(pair_rems(os, ns, op, j, os.len() as int) =~= before);
        }
    }
}

/// The truncated partner of the matched new child of rank `r`.
pub open spec fn rank_kid(os: Seq<NodeModel>, ns: Seq<NodeModel>, r: int) -> NodeModel {
    mix(os, ns)[matched_news(os, ns, ns.len() as int)[r]]
}

/// The ranks `s` hold, as children.
pub open spec fn rank_kids(os: Seq<NodeModel>, ns: Seq<NodeModel>, s: Seq<int>) -> Seq<NodeModel> {
    s.map_values(|r: int| rank_kid(os, ns, r))
}

/// The facts about ranks: each is a matched new child with its partner,
/// partners differ, every matched old child has a rank, and the keys of the
/// children of different ranks differ.
proof fn lemma_ranks(os: Seq<NodeModel>, ns: Seq<NodeModel>)
    requires
        all_keyed(ns),
        os.len() <= usize::MAX,
    ensures
        partner_seq(os, ns).len() == matched_news(os, ns, ns.len() as int).len(),
        forall|r: int|
            0 <= r < partner_seq(os, ns).len() ==> {
                let t = #[trigger] matched_news(os, ns, ns.len() as int)[r];
                &&& 0 <= t < ns.len()
                &&& new_matched(os, ns, t)
                &&& partner_seq(os, ns)[r] as int == partner(os, ns, t)
                &&& 0 <= partner(os, ns, t) < os.len()
                &&& old_matched(os, ns, partner(os, ns, t))
                &&& inv(os, ns, partner(os, ns, t)) == t
                &&& rank_kid(os, ns, r) == trunc(os[partner(os, ns, t)], ns[t])
                &&& key_of(rank_kid(os, ns, r)) == Some(key_or_empty(ns[t]))
            },
        forall|a: int, b: int|
            0 <= a < b < partner_seq(os, ns).len() ==> #[trigger] partner_seq(os, ns)[a] != #[trigger] partner_seq(
                os,
                ns,
            )[b],
        forall|a: int, b: int|
            0 <= a < partner_seq(os, ns).len() && 0 <= b < partner_seq(os, ns).len() && a != b ==> key_of(
                #[trigger] rank_kid(os, ns, a),
            ) != key_of(#[trigger] rank_kid(os, ns, b)),
        forall|u: int|
            0 <= u < os.len() && #[trigger] old_matched(os, ns, u) ==> 0 <= rank_of(os, ns, u) < partner_seq(os, ns).len()
                && partner_seq(os, ns)[rank_of(os, ns, u)] as int == u,
{
    let n = ns.len() as int;
    let mn = matched_news(os, ns, n);
    let ps = partner_seq(os, ns);
    lemma_matched_news(os, ns, n);
    assert forall|r: int| 0 <= r < ps.len() implies {
        let t = #[trigger] mn[r];
        &&& 0 <= t < ns.len()
        &&& new_matched(os, ns, t)
        &&& ps[r] as int == partner(os, ns, t)
        &&& 0 <= partner(os, ns, t) < os.len()
        &&& old_matched(os, ns, partner(os, ns, t))
        &&& inv(os, ns, partner(os, ns, t)) == t
        &&& rank_kid(os, ns, r) == trunc(os[partner(os, ns, t)], ns[t])
        &&& key_of(rank_kid(os, ns, r)) == Some(key_or_empty(ns[t]))
    } by {
        let t = mn[r];
        assert(0 <= t < ns.len() && new_matched(os, ns, t));
        lemma_partner(os, ns, t);
        lemma_inv(os, ns, t);
        lemma_key_trunc(os[partner(os, ns, t)], ns[t]);
        assert(key_of(ns[t]) is Some);
        assert(ps[r] == partner(os, ns, t) as usize);
        assert(mix(os, ns)[t] == trunc(os[partner(os, ns, t)], ns[t]));
        assert(key_of(os[partner(os, ns, t)]) == key_of(ns[t]));
    }
    assert forall|a: int, b: int| 0 <= a < b < ps.len() implies #[trigger] ps[a] != #[trigger] ps[b] by {
        lemma_partner_inj(os, ns, mn[a], mn[b]);
        lemma_partner(os, ns, mn[a]);
        lemma_partner(os, ns, mn[b]);
    }
    assert forall|a: int, b: int| 0 <= a < ps.len() && 0 <= b < ps.len() && a != b implies key_of(
        #[trigger] rank_kid(os, ns, a),
    ) != key_of(#[trigger] rank_kid(os, ns, b)) by {
        let ta = mn[a];
        let tb = mn[b];
        if key_of(ns[ta]) == key_of(ns[tb]) {
            if ta < tb {
                assert(key_of(ns[tb]) == Some(key_or_empty(ns[tb])));
                assert(key_seen_before(ns, key_or_empty(ns[tb]), tb));
            } else {
                assert(key_of(ns[ta]) == Some(key_or_empty(ns[ta])));
                assert(key_seen_before(ns, key_or_empty(ns[ta]), ta));
            }
        }
    }
    let psi = ps.map_values(|x: usize| x as int);
    assert forall|u: int| 0 <= u < os.len() && #[trigger] old_matched(os, ns, u) implies 0 <= rank_of(os, ns, u)
        < ps.len() && ps[rank_of(os, ns, u)] as int == u by {
        let t = choose|t: int| 0 <= t < ns.len() && new_matched(os, ns, t) && partner(os, ns, t) == u;
        assert(mn.contains(t));
        let r = choose|r: int| 0 <= r < mn.len() && mn[r] == t;
        assert(psi[r] == u);
        lemma_pos_found(psi, u, 0, r);
    }
}

proof fn lemma_pos_range(s: Seq<int>, x: int, i: int)
    requires
        0 <= i <= s.len(),
    ensures
        i <= pos_of(s, x, i) <= s.len(),
    decreases s.len() - i,
{
    if i < s.len() && s[i] != x {
        lemma_pos_range(s, x, i + 1);
    }
}

proof fn lemma_placed_len(os: Seq<NodeModel>, ns: Seq<NodeModel>, j: int, t: int)
    requires
        0 <= t,
    ensures
        placed(os, ns, j, t).len() <= t,
    decreases t,
{
    if t > 0 {
        lemma_placed_len(os, ns, j, t - 1);
    }
}

/// Where `x` stands at `j` and not before, `pos_of` finds it there; it
/// finds something at or before any place that holds `x`.
proof fn lemma_pos_found(s: Seq<int>, x: int, i: int, j: int)
    requires
        0 <= i <= j < s.len(),
        s[j] == x,
    ensures
        i <= pos_of(s, x, i) <= j,
        s[pos_of(s, x, i)] == x,
        forall|q: int| i <= q < pos_of(s, x, i) ==> s[q] != x,
    decreases j - i,
{
    if s[i] != x {
        lemma_pos_found(s, x, i + 1, j);
    }
}

/// `olds_between(i, k)` holds, in increasing order, exactly the matched
/// old indices in `[i, k)`, and its first one is `i` when `i` is matched.
proof fn lemma_olds(os: Seq<NodeModel>, ns: Seq<NodeModel>, i: int, k: int)
    requires
        0 <= i,
    ensures
        forall|a: int| 0 <= a < olds_between(os, ns, i, k).len() ==> i <= #[trigger] olds_between(os, ns, i, k)[a] < k
            && old_matched(os, ns, olds_between(os, ns, i, k)[a]),
        forall|a: int, b: int|
            0 <= a < b < olds_between(os, ns, i, k).len() ==> #[trigger] olds_between(os, ns, i, k)[a]
                < #[trigger] olds_between(os, ns, i, k)[b],
        forall|u: int| i <= u < k && old_matched(os, ns, u) ==> #[trigger] olds_between(os, ns, i, k).contains(u),
        i < k ==> olds_between(os, ns, i, k) == (if old_matched(os, ns, i) {
            seq![i]
        } else {
            Seq::<int>::empty()
        }) + olds_between(os, ns, i + 1, k),
    decreases k,
{
    if k > i && k > 0 {
        lemma_olds(os, ns, i, k - 1);
        let a = olds_between(os, ns, i, k - 1);
        let b = olds_between(os, ns, i, k);
        assert forall|x: int| 0 <= x < b.len() implies i <= #[trigger] b[x] < k && old_matched(os, ns, b[x]) by {
            if x < a.len() {
                assert(b[x] == a[x]);
            }
        }
        assert forall|x: int, y: int| 0 <= x < y < b.len() implies #[trigger] b[x] < #[trigger] b[y] by {
            if y < a.len() {
                assert(b[x] == a[x] && b[y] == a[y]);
            } else {
                assert(b[x] == a[x]);
            }
        }
        assert forall|u: int| i <= u < k && old_matched(os, ns, u) implies #[trigger] b.contains(u) by {
            if u < k - 1 {
                assert(a.contains(u));
                let w = choose|w: int| 0 <= w < a.len() && a[w] == u;
                assert(b[w] == a[w]);
            } else {
                assert(b[b.len() - 1] == u);
            }
        }
        if i < k - 1 {
            lemma_olds(os, ns, i + 1, k - 1);
            assert(b =~= (if old_matched(os, ns, i) {
                seq![i]
            } else {
                Seq::<int>::empty()
            }) + olds_between(os, ns, i + 1, k));
        } else {
            assert(olds_between(os, ns, i + 1, k) =~= Seq::<int>::empty());
            assert(a =~= Seq::<int>::empty());
            assert(b =~= (if old_matched(os, ns, i) {
                seq![i]
            } else {
                Seq::<int>::empty()
            }) + olds_between(os, ns, i + 1, k));
        }
    }
}

/// The kept old children are the matched old ones in old order.
proof fn lemma_kept_olds(os: Seq<NodeModel>, ns: Seq<NodeModel>, i: int)
    requires
        0 <= i <= os.len(),
    ensures
        kept_from(os, ns, i, 0) == olds_between(os, ns, i, os.len() as int).map_values(
            |u: int| trunc(os[u], ns[inv(os, ns, u)]),
        ),
    decreases os.len() - i,
{
    let f = |u: int| trunc(os[u], ns[inv(os, ns, u)]);
    if i < os.len() {
        lemma_kept_olds(os, ns, i + 1);
        lemma_olds(os, ns, i, os.len() as int);
        if old_matched(os, ns, i) {
            let t = choose|t: int| 0 <= t < ns.len() && new_matched(os, ns, t) && partner(os, ns, t) == i;
            lemma_inv(os, ns, t);
        }
        assert(kept_from(os, ns, i, 0) =~= olds_between(os, ns, i, os.len() as int).map_values(f));
    } else {
        assert(olds_between(os, ns, i, os.len() as int) =~= Seq::<int>::empty());
    }
}

/// The ranks set aside as staying.
pub open spec fn in_run(os: Seq<NodeModel>, ns: Seq<NodeModel>, r: int, x: int) -> bool {
    stays(os, ns, x) || x < r
}

/// What holds of the order of the ranks once the ranks below `r` are
/// handled: it holds each rank, nothing else, and the staying ranks and
/// those below `r` come in increasing order.
pub open spec fn ranks_ok(os: Seq<NodeModel>, ns: Seq<NodeModel>, s: Seq<int>, r: int) -> bool {
    let m = partner_seq(os, ns).len();
    &&& s.len() == m
    &&& forall|a: int| 0 <= a < s.len() ==> 0 <= #[trigger] s[a] < m
    &&& forall|x: int| 0 <= x < m ==> #[trigger] s.contains(x)
    &&& forall|a: int, b: int| 0 <= a < s.len() && 0 <= b < s.len() && a != b ==> #[trigger] s[a] != #[trigger] s[b]
    &&& forall|a: int, b: int|
        0 <= a < b < s.len() && in_run(os, ns, r, #[trigger] s[a]) && in_run(os, ns, r, #[trigger] s[b]) ==> s[a]
            < s[b]
}

proof fn lemma_start_ranks(os: Seq<NodeModel>, ns: Seq<NodeModel>)
    requires
        all_keyed(ns),
        os.len() <= usize::MAX,
        ns.len() <= usize::MAX,
    ensures
        ranks_ok(os, ns, start_ranks(os, ns), 0),
        kept_from(os, ns, 0, 0) == rank_kids(os, ns, start_ranks(os, ns)),
{
    let n = ns.len() as int;
    let ps = partner_seq(os, ns);
    let m = ps.len();
    let mn = matched_news(os, ns, n);
    let olds = olds_between(os, ns, 0, os.len() as int);
    let st = start_ranks(os, ns);
    lemma_ranks(os, ns);
    lemma_olds(os, ns, 0, os.len() as int);
    lemma_kept_olds(os, ns, 0);
    lemma_matched_news(os, ns, n);
    // each entry is the rank of a matched old child
    assert forall|a: int| 0 <= a < st.len() implies 0 <= #[trigger] st[a] < m && ps[st[a]] as int == olds[a] by {
        assert(old_matched(os, ns, olds[a]));
    }
    // the same children
    assert(kept_from(os, ns, 0, 0) =~= rank_kids(os, ns, st)) by {
        assert forall|a: int| 0 <= a < st.len() implies trunc(os[olds[a]], ns[inv(os, ns, olds[a])]) == rank_kid(
            os,
            ns,
            #[trigger] st[a],
        ) by {
            assert(ps[st[a]] as int == olds[a]);
            let t = mn[st[a]];
            assert(partner(os, ns, t) == olds[a]);
        }
    }
    // every rank is there
    assert forall|x: int| 0 <= x < m implies #[trigger] st.contains(x) by {
        let u = ps[x] as int;
        let t = mn[x];
        assert(old_matched(os, ns, partner(os, ns, t)));
        assert(olds.contains(u));
        let w = choose|w: int| 0 <= w < olds.len() && olds[w] == u;
        assert(ps[st[w]] as int == u);
        if st[w] != x {
            if st[w] < x {
                assert(ps[st[w]] != ps[x]);
            } else {
                assert(ps[x] != ps[st[w]]);
            }
        }
    }
    // as many as ranks: both lists are without repeats and hold the same
    assert(st.no_duplicates()) by {
        assert forall|a: int, b: int| 0 <= a < st.len() && 0 <= b < st.len() && a != b implies st[a] != st[b] by {
            if st[a] == st[b] {
                assert(olds[a] == olds[b]);
                if a < b {
                    assert(olds[a] < olds[b]);
                } else {
                    assert(olds[b] < olds[a]);
                }
            }
        }
    }
    let range = Seq::new(m, |i: int| i);
    assert(range.no_duplicates());
    assert(st.to_set() =~= range.to_set()) by {
        assert forall|x: int| st.to_set().contains(x) implies range.to_set().contains(x) by {
            let w = choose|w: int| 0 <= w < st.len() && st[w] == x;
            assert(range[x] == x);
        }
        assert forall|x: int| range.to_set().contains(x) implies st.to_set().contains(x) by {
            assert(st.contains(x));
        }
    }
    st.unique_seq_to_set();
    range.unique_seq_to_set();
    assert forall|a: int, b: int| 0 <= a < st.len() && 0 <= b < st.len() && a != b implies #[trigger] st[a]
        != #[trigger] st[b] by {}
    // staying ranks come in increasing order
    let lis = lis_s(ps);
    lemma_lis_run(ps);
    assert forall|a: int, b: int|
        0 <= a < b < st.len() && in_run(os, ns, 0, #[trigger] st[a]) && in_run(os, ns, 0, #[trigger] st[b]) implies st[a]
        < st[b] by {
        assert(olds[a] < olds[b]);
        let wa = choose|w: int| 0 <= w < lis.len() && lis[w] == st[a] as usize;
        let wb = choose|w: int| 0 <= w < lis.len() && lis[w] == st[b] as usize;
        if wb < wa {
            assert(lis[wb] < lis[wa] && ps[lis[wb] as int] < ps[lis[wa] as int]);
        } else if wa == wb {
            assert(st[a] == st[b]);
            assert(ps[st[a]] as int == olds[a]);
        } else {
            assert(lis[wa] < lis[wb]);
        }
    }
}

/// Moving a rank that does not stay right after the rank before it keeps
/// the order facts, with one more rank handled.
#[verifier::spinoff_prover]
#[verifier::rlimit(100)]
proof fn lemma_rank_state(os: Seq<NodeModel>, ns: Seq<NodeModel>, r: int)
    requires
        all_keyed(ns),
        os.len() <= usize::MAX,
        ns.len() <= usize::MAX,
        0 <= r <= partner_seq(os, ns).len(),
    ensures
        ranks_ok(os, ns, rank_state(os, ns, r), r),
    decreases r,
{
    let m = partner_seq(os, ns).len();
    if r == 0 {
        lemma_start_ranks(os, ns);
    } else {
        let q = r - 1;
        lemma_rank_state(os, ns, q);
        let s = rank_state(os, ns, q);
        assert(s.contains(q));
        let w = choose|w: int| 0 <= w < s.len() && s[w] == q;
        lemma_pos_found(s, q, 0, w);
        let p = pos_of(s, q, 0);
        if stays(os, ns, q) {
            assert forall|a: int, b: int|
                0 <= a < b < s.len() && in_run(os, ns, r, #[trigger] s[a]) && in_run(os, ns, r, #[trigger] s[b]) implies s[a]
                < s[b] by {
                assert(in_run(os, ns, q, s[a]) && in_run(os, ns, q, s[b]));
            }
        } else {
            lemma_move_keeps(os, ns, s, q, p);
        }
    }
}

#[verifier::spinoff_prover]
#[verifier::rlimit(100)]
proof fn lemma_move_keeps(os: Seq<NodeModel>, ns: Seq<NodeModel>, s: Seq<int>, q: int, p: int)
    requires
        0 <= q < partner_seq(os, ns).len(),
        ranks_ok(os, ns, s, q),
        0 <= p < s.len(),
        s[p] == q,
        !stays(os, ns, q),
    ensures
        ranks_ok(os, ns, s.remove(p).insert(move_to(s.remove(p), q), q), q + 1),
{
    let r = q + 1;
    let m = partner_seq(os, ns).len();
        let rest = s.remove(p);
        lemma_pos_range(rest, q - 1, 0);
        let to = move_to(rest, q);
        let s2 = rest.insert(to, q);
        // where the rank before q stands in rest
        if q > 0 {
            assert(s.contains(q - 1));
            let w1 = choose|w: int| 0 <= w < s.len() && s[w] == q - 1;
            let w2 = if w1 < p {
                w1
            } else {
                w1 - 1
            };
            assert(rest[w2] == q - 1);
            lemma_pos_found(rest, q - 1, 0, w2);
        }
        let pq = pos_of(rest, q - 1, 0);
        assert(0 <= to <= rest.len());
        assert(s2.len() == m);
        assert forall|a: int| 0 <= a < s2.len() implies 0 <= #[trigger] s2[a] < m by {
            if a < to {
                assert(s2[a] == rest[a]);
            } else if a > to {
                assert(s2[a] == rest[a - 1]);
            }
        }
        assert forall|a: int, b: int| 0 <= a < s2.len() && 0 <= b < s2.len() && a != b implies #[trigger] s2[a]
            != #[trigger] s2[b] by {
            let fa = |i: int| if i < p { i } else { i + 1 };
            if a != to && b != to {
                let ra = if a < to { a } else { a - 1 };
                let rb = if b < to { b } else { b - 1 };
                assert(s2[a] == rest[ra] && s2[b] == rest[rb]);
                assert(rest[ra] == s[fa(ra)] && rest[rb] == s[fa(rb)]);
                assert(fa(ra) != fa(rb));
            } else if a == to {
                let rb = if b < to { b } else { b - 1 };
                assert(s2[b] == rest[rb]);
                assert(rest[rb] == s[fa(rb)]);
                assert(fa(rb) != p);
                assert(s[fa(rb)] != s[p]);
            } else {
                let ra = if a < to { a } else { a - 1 };
                assert(s2[a] == rest[ra]);
                assert(rest[ra] == s[fa(ra)]);
                assert(fa(ra) != p);
                assert(s[fa(ra)] != s[p]);
            }
        }
        assert forall|x: int| 0 <= x < m implies #[trigger] s2.contains(x) by {
            if x == q {
                assert(s2[to] == q);
            } else {
                assert(s.contains(x));
                let v = choose|v: int| 0 <= v < s.len() && s[v] == x;
                let v2 = if v < p {
                    v
                } else {
                    v - 1
                };
                assert(rest[v2] == x);
                if v2 < to {
                    assert(s2[v2] == x);
                } else {
                    assert(s2[v2 + 1] == x);
                }
            }
        }
        // the order among the handled ranks
        assert forall|a: int, b: int|
            0 <= a < b < s2.len() && in_run(os, ns, r, #[trigger] s2[a]) && in_run(os, ns, r, #[trigger] s2[b])
            implies s2[a] < s2[b] by {
            // positions in s of the entries of rest
            let fa = |i: int| if i < p { i } else { i + 1 };
            if a != to && b != to {
                let ra = if a < to { a } else { a - 1 };
                let rb = if b < to { b } else { b - 1 };
                assert(s2[a] == rest[ra] && s2[b] == rest[rb]);
                assert(rest[ra] == s[fa(ra)] && rest[rb] == s[fa(rb)]);
                assert(fa(ra) != p && fa(rb) != p);
                assert(s[fa(ra)] != s[p] && s[fa(rb)] != s[p]);
                assert(in_run(os, ns, q, s[fa(ra)]) && in_run(os, ns, q, s[fa(rb)]));
            } else if a == to {
                // q, then an entry after it: after q - 1 in rest
                let rb = b - 1;
                assert(s2[b] == rest[rb]);
                assert(rest[rb] == s[fa(rb)]);
                if s2[b] == q {
                    assert(false) by {
                        assert(fa(rb) != p);
                        assert(s[fa(rb)] != s[p]);
                    }
                }
                assert(in_run(os, ns, q, s2[b]));
                if q > 0 {
                    assert(rest[pq] == q - 1);
                    assert(rb > pq);
                    assert(s[fa(pq)] == q - 1);
                    assert(fa(pq) < fa(rb));
                    assert(in_run(os, ns, q, q - 1));
                }
            } else {
                // an entry before q: at or before q - 1 in rest
                assert(b == to);
                assert(s2[a] == rest[a]);
                assert(rest[a] == s[fa(a)]);
                if s2[a] == q {
                    assert(false) by {
                        assert(fa(a) != p);
                        assert(s[fa(a)] != s[p]);
                    }
                }
                assert(in_run(os, ns, q, s2[a]));
                assert(q > 0);
                assert(a <= pq);
                if a < pq {
                    assert(rest[pq] == q - 1);
                    assert(s[fa(pq)] == q - 1);
                    assert(fa(a) < fa(pq));
                    assert(in_run(os, ns, q, q - 1));
                }
            }
        }
}

/// Once every rank is handled, the ranks stand in order.
proof fn lemma_ranks_final(os: Seq<NodeModel>, ns: Seq<NodeModel>)
    requires
        all_keyed(ns),
        os.len() <= usize::MAX,
        ns.len() <= usize::MAX,
    ensures
        rank_state(os, ns, partner_seq(os, ns).len() as int) == Seq::new(partner_seq(os, ns).len(), |i: int| i),
{
    let m = partner_seq(os, ns).len() as int;
    lemma_rank_state(os, ns, m);
    let s = rank_state(os, ns, m);
    assert forall|a: int, b: int| 0 <= a < b < s.len() implies #[trigger] s[a] < #[trigger] s[b] by {
        assert(in_run(os, ns, m, s[a]) && in_run(os, ns, m, s[b]));
    }
    lemma_fills(s, m);
    assert(s =~= Seq::new(partner_seq(os, ns).len(), |i: int| i));
}

/// An increasing list of `m` values below `m`, none negative, is `0..m`.
proof fn lemma_fills(s: Seq<int>, m: int)
    requires
        s.len() == m,
        forall|a: int| 0 <= a < s.len() ==> 0 <= #[trigger] s[a] < m,
        forall|a: int, b: int| 0 <= a < b < s.len() ==> #[trigger] s[a] < #[trigger] s[b],
    ensures
        forall|a: int| 0 <= a < s.len() ==> #[trigger] s[a] == a,
{
    assert forall|a: int| 0 <= a < s.len() implies #[trigger] s[a] >= a by {
        lemma_fills_low(s, a);
    }
    assert forall|a: int| 0 <= a < s.len() implies #[trigger] s[a] <= a by {
        lemma_fills_high(s, m, a);
    }
}

proof fn lemma_fills_low(s: Seq<int>, a: int)
    requires
        0 <= a < s.len(),
        forall|x: int| 0 <= x < s.len() ==> 0 <= #[trigger] s[x],
        forall|x: int, y: int| 0 <= x < y < s.len() ==> #[trigger] s[x] < #[trigger] s[y],
    ensures
        s[a] >= a,
    decreases a,
{
    if a > 0 {
        lemma_fills_low(s, a - 1);
        assert(s[a - 1] < s[a]);
    }
}

proof fn lemma_fills_high(s: Seq<int>, m: int, a: int)
    requires
        s.len() == m,
        0 <= a < s.len(),
        forall|x: int| 0 <= x < s.len() ==> #[trigger] s[x] < m,
        forall|x: int, y: int| 0 <= x < y < s.len() ==> #[trigger] s[x] < #[trigger] s[y],
    ensures
        s[a] <= a,
    decreases m - a,
{
    if a < m - 1 {
        lemma_fills_high(s, m, a + 1);
        assert(s[a] < s[a + 1]);
    }
}

/// The moves take the kept children, in old order, to the children of the
/// ranks in the order the first `r` moves leave them.
#[verifier::spinoff_prover]
#[verifier::rlimit(60)]
proof fn lemma_kmoves_run(h: NodeModel, os: Seq<NodeModel>, ns: Seq<NodeModel>, np: Seq<usize>, r: int)
    requires
        holder(h),
        all_keyed(ns),
        os.len() <= usize::MAX,
        ns.len() <= usize::MAX,
        0 <= r <= partner_seq(os, ns).len(),
        kids_of(h) == Some(kept_from(os, ns, 0, 0)),
    ensures
        run_at(h, keyed_moves(os, ns, np, r), np.len() as int) == Ok::<NodeModel, Seq<char>>(
            put_kids(h, rank_kids(os, ns, rank_state(os, ns, r))),
        ),
        under(keyed_moves(os, ns, np, r), np),
        no_removes(keyed_moves(os, ns, np, r)),
        forall|i: int| 0 <= i < keyed_moves(os, ns, np, r).len() ==> (#[trigger] keyed_moves(os, ns, np, r)[i]) is Move,
    decreases r,
{
    let k = np.len() as int;
    lemma_holder(h, kept_from(os, ns, 0, 0), kept_from(os, ns, 0, 0));
    if r == 0 {
        lemma_start_ranks(os, ns);
        assert(keyed_moves(os, ns, np, 0) =~= Seq::<PatchModel>::empty());
    } else {
        let q = r - 1;
        lemma_kmoves_run(h, os, ns, np, q);
        lemma_rank_state(os, ns, q);
        let s = rank_state(os, ns, q);
        let before = keyed_moves(os, ns, np, q);
        let ks = rank_kids(os, ns, s);
        let s1 = put_kids(h, ks);
        assert(s.contains(q));
        let w = choose|w: int| 0 <= w < s.len() && s[w] == q;
        lemma_pos_found(s, q, 0, w);
        let p = pos_of(s, q, 0);
        if stays(os, ns, q) {
            assert(keyed_moves(os, ns, np, r) =~= before);
        } else {
            lemma_ranks(os, ns);
            let rest = s.remove(p);
            lemma_pos_range(rest, q - 1, 0);
            let to = move_to(rest, q);
            let mn = matched_news(os, ns, ns.len() as int);
            let key = key_or_empty(ns[mn[q]]);
            let mv = PatchModel::Move { path: np, from: partner_seq(os, ns)[q], to: to as usize, key };
            assert(keyed_moves(os, ns, np, r) == before + seq![mv]);
            lemma_holder(h, ks, rank_kids(os, ns, rest.insert(to, q)));
            lemma_single(s1, mv, np);
            // the first child with the key is the one of rank q
            assert(key_of(ks[p]) == Some(key));
            assert forall|i: int| 0 <= i < p implies key_of(#[trigger] ks[i]) != Some(key) by {
                assert(s[i] != q);
                assert(ks[i] == rank_kid(os, ns, s[i]));
            }
            lemma_first_key(ks, key, p, 0);
            assert(0 <= to <= rest.len());
            let k2 = rank_kids(os, ns, rest.insert(to, q));
            assert(ks.remove(p) =~= rank_kids(os, ns, rest));
            assert(ks.remove(p).insert(to, ks[p]) =~= k2);
            lemma_matched_news(os, ns, ns.len() as int);
            assert(to <= ks.len() - 1);
            if to == p {
                assert(rest.insert(to, q) =~= s);
                assert(k2 =~= ks);
            }
            assert(move_in_s(ks, key, to as usize) == Ok::<Seq<NodeModel>, Seq<char>>(k2));
            lemma_run_concat(h, before, seq![mv], k);
            lemma_under_concat_any(before, seq![mv], np);
            assert forall|i: int| 0 <= i < keyed_moves(os, ns, np, r).len() implies (#[trigger] keyed_moves(
                os,
                ns,
                np,
                r,
            )[i]) is Move && !(keyed_moves(os, ns, np, r)[i] is Remove) by {
                if i < before.len() {
                    assert(keyed_moves(os, ns, np, r)[i] == before[i]);
                }
            }
        }
    }
}

/// The children of new index below `j` or matched, in new order.
pub open spec fn placed(os: Seq<NodeModel>, ns: Seq<NodeModel>, j: int, t: int) -> Seq<NodeModel>
    decreases t,
{
    if t <= 0 {
        Seq::empty()
    } else {
        placed(os, ns, j, t - 1) + if new_matched(os, ns, t - 1) || t - 1 < j {
            seq![mix(os, ns)[t - 1]]
        } else {
            Seq::empty()
        }
    }
}

proof fn lemma_placed_matched(os: Seq<NodeModel>, ns: Seq<NodeModel>, t: int)
    requires
        0 <= t <= ns.len(),
    ensures
        placed(os, ns, 0, t) == matched_news(os, ns, t).map_values(|u: int| mix(os, ns)[u]),
    decreases t,
{
    if t > 0 {
        lemma_placed_matched(os, ns, t - 1);
        assert(placed(os, ns, 0, t) =~= matched_news(os, ns, t).map_values(|u: int| mix(os, ns)[u]));
    }
}

proof fn lemma_placed_prefix(os: Seq<NodeModel>, ns: Seq<NodeModel>, j: int, t: int)
    requires
        0 <= j <= t <= ns.len(),
    ensures
        placed(os, ns, j, t).len() >= j,
        placed(os, ns, j, t).take(j) == mix(os, ns).take(j),
        new_matched(os, ns, j) || j >= t ==> placed(os, ns, j + 1, t) == placed(os, ns, j, t),
        !new_matched(os, ns, j) && j < t ==> placed(os, ns, j + 1, t) == placed(os, ns, j, t).insert(
            j,
            mix(os, ns)[j],
        ),
    decreases t,
{
    if t == j {
        assert forall|u: int| 0 <= u <= j implies #[trigger] placed(os, ns, j, u) == mix(os, ns).take(u) by {
            lemma_placed_all(os, ns, j, u);
        }
        assert forall|u: int| 0 <= u <= j implies #[trigger] placed(os, ns, j + 1, u) == mix(os, ns).take(u) by {
            lemma_placed_all(os, ns, j + 1, u);
        }
    } else {
        lemma_placed_prefix(os, ns, j, t - 1);
        let a = placed(os, ns, j, t - 1);
        assert(placed(os, ns, j, t).take(j) =~= a.take(j));
        if t - 1 == j {
            lemma_placed_all(os, ns, j, j);
            lemma_placed_all(os, ns, j + 1, j);
            lemma_placed_all(os, ns, j + 1, j + 1);
            if !new_matched(os, ns, j) {
                assert(placed(os, ns, j, t) =~= a);
                assert(a =~= mix(os, ns).take(j));
                assert(mix(os, ns).take(j + 1) =~= a.insert(j, mix(os, ns)[j]));
            }
        } else {
            if !new_matched(os, ns, j) {
                assert(placed(os, ns, j + 1, t) =~= a.insert(j, mix(os, ns)[j]) + if new_matched(os, ns, t - 1) {
                    seq![mix(os, ns)[t - 1]]
                } else {
                    Seq::<NodeModel>::empty()
                });
                assert(placed(os, ns, j + 1, t) =~= placed(os, ns, j, t).insert(j, mix(os, ns)[j]));
            }
        }
    }
}

proof fn lemma_placed_all(os: Seq<NodeModel>, ns: Seq<NodeModel>, j: int, u: int)
    requires
        0 <= u <= j,
        u <= ns.len(),
    ensures
        placed(os, ns, j, u) == mix(os, ns).take(u),
    decreases u,
{
    if u > 0 {
        lemma_placed_all(os, ns, j, u - 1);
        assert(placed(os, ns, j, u) =~= mix(os, ns).take(u));
    }
}

/// The creates put the new children without partner at their places.
#[verifier::spinoff_prover]
#[verifier::rlimit(40)]
proof fn lemma_kcreates_run(h: NodeModel, os: Seq<NodeModel>, ns: Seq<NodeModel>, np: Seq<usize>, j: int)
    requires
        holder(h),
        0 <= j <= ns.len(),
        ns.len() <= usize::MAX,
        kids_of(h) == Some(placed(os, ns, 0, ns.len() as int)),
    ensures
        run_at(h, keyed_creates(ns, os, np, j), np.len() as int) == Ok::<NodeModel, Seq<char>>(
            put_kids(h, placed(os, ns, j, ns.len() as int)),
        ),
        under(keyed_creates(ns, os, np, j), np),
        no_removes(keyed_creates(ns, os, np, j)),
        forall|i: int|
            0 <= i < keyed_creates(ns, os, np, j).len() ==> (#[trigger] keyed_creates(ns, os, np, j)[i]) is Create,
    decreases j,
{
    let k = np.len() as int;
    let n = ns.len() as int;
    lemma_holder(h, placed(os, ns, 0, n), placed(os, ns, 0, n));
    if j == 0 {
        assert(keyed_creates(ns, os, np, 0) =~= Seq::<PatchModel>::empty());
    } else {
        let t = j - 1;
        lemma_kcreates_run(h, os, ns, np, t);
        lemma_placed_prefix(os, ns, t, n);
        let before = keyed_creates(ns, os, np, t);
        let ks = placed(os, ns, t, n);
        if new_matched(os, ns, t) {
            assert(keyed_creates(ns, os, np, j) =~= before);
        } else {
            let c = PatchModel::Create { path: np, index: t as usize, node: ns[t] };
            assert(keyed_creates(ns, os, np, j) == before + seq![c]);
            assert(mix(os, ns)[t] == ns[t]);
            lemma_holder(h, ks, ks.insert(t, ns[t]));
            lemma_single(put_kids(h, ks), c, np);
            lemma_placed_len(os, ns, t, n);
            assert(min_usize(t as usize, ks.len() as usize) == t as usize);
            lemma_run_concat(h, before, seq![c], k);
            lemma_under_concat_any(before, seq![c], np);
            assert forall|i: int| 0 <= i < keyed_creates(ns, os, np, j).len() implies (#[trigger] keyed_creates(
                ns,
                os,
                np,
                j,
            )[i]) is Create && !(keyed_creates(ns, os, np, j)[i] is Remove) by {
                if i < before.len() {
                    assert(keyed_creates(ns, os, np, j)[i] == before[i]);
                }
            }
        }
    }
}

/// Moving and creating turns the kept old children into `mix`.
proof fn lemma_kplace(h: NodeModel, os: Seq<NodeModel>, ns: Seq<NodeModel>, np: Seq<usize>)
    requires
        holder(h),
        all_keyed(ns),
        os.len() <= usize::MAX,
        ns.len() <= usize::MAX,
        kids_of(h) == Some(kept_from(os, ns, 0, 0)),
    ensures
        run_at(h, kplace(os, ns, np), np.len() as int) == Ok::<NodeModel, Seq<char>>(put_kids(h, mix(os, ns))),
        under(kplace(os, ns, np), np),
        no_removes(kplace(os, ns, np)),
        forall|i: int| 0 <= i < kplace(os, ns, np).len() ==> !(#[trigger] kplace(os, ns, np)[i] is Replace),
{
    let k = np.len() as int;
    let n = ns.len() as int;
    let m = partner_seq(os, ns).len() as int;
    let mv = keyed_moves(os, ns, np, m);
    let cr = keyed_creates(ns, os, np, n);
    lemma_kmoves_run(h, os, ns, np, m);
    lemma_ranks_final(os, ns);
    lemma_ranks(os, ns);
    lemma_placed_matched(os, ns, n);
    let mn = matched_news(os, ns, n);
    assert(rank_kids(os, ns, Seq::new(m as nat, |i: int| i)) =~= placed(os, ns, 0, n));
    let h2 = put_kids(h, placed(os, ns, 0, n));
    lemma_holder(h, placed(os, ns, 0, n), placed(os, ns, 0, n));
    lemma_kcreates_run(h2, os, ns, np, n);
    lemma_placed_all(os, ns, n, n);
    assert(mix(os, ns).take(n) =~= mix(os, ns));
    lemma_holder(h2, placed(os, ns, n, n), placed(os, ns, n, n));
    lemma_run_concat(h, mv, cr, k);
    lemma_under_concat_any(mv, cr, np);
    assert forall|i: int| 0 <= i < kplace(os, ns, np).len() implies !(#[trigger] kplace(os, ns, np)[i] is Replace)
        && !(kplace(os, ns, np)[i] is Remove) by {
        if i < mv.len() {
            assert(kplace(os, ns, np)[i] == mv[i]);
        } else {
            assert(kplace(os, ns, np)[i] == cr[i - mv.len()]);
        }
    }
}

/// The placing patches of a keyed child list: moves, then creates.
pub open spec fn kplace(os: Seq<NodeModel>, ns: Seq<NodeModel>, np: Seq<usize>) -> Seq<PatchModel> {
    keyed_moves(os, ns, np, partner_seq(os, ns).len() as int) + keyed_creates(ns, os, np, ns.len() as int)
}

proof fn lemma_kplace_kinds(os: Seq<NodeModel>, ns: Seq<NodeModel>, np: Seq<usize>, r: int, j: int)
    requires
        0 <= r,
        0 <= j,
    ensures
        forall|i: int| 0 <= i < keyed_moves(os, ns, np, r).len() ==> (#[trigger] keyed_moves(os, ns, np, r)[i]) is Move,
        forall|i: int|
            0 <= i < keyed_creates(ns, os, np, j).len() ==> (#[trigger] keyed_creates(ns, os, np, j)[i]) is Create,
    decreases r + j,
{
    if r > 0 {
        lemma_kplace_kinds(os, ns, np, r - 1, j);
        let b = keyed_moves(os, ns, np, r - 1);
        assert forall|i: int| 0 <= i < keyed_moves(os, ns, np, r).len() implies (#[trigger] keyed_moves(
            os,
            ns,
            np,
            r,
        )[i]) is Move by {
            if i < b.len() {
                assert(keyed_moves(os, ns, np, r)[i] == b[i]);
            }
        }
    }
    if j > 0 {
        lemma_kplace_kinds(os, ns, np, 0, j - 1);
        let b = keyed_creates(ns, os, np, j - 1);
        assert forall|i: int| 0 <= i < keyed_creates(ns, os, np, j).len() implies (#[trigger] keyed_creates(
            ns,
            os,
            np,
            j,
        )[i]) is Create by {
            if i < b.len() {
                assert(keyed_creates(ns, os, np, j)[i] == b[i]);
            }
        }
    }
}

/// The placing patches are moves and creates only.
proof fn lemma_kplace_no_removes(os: Seq<NodeModel>, ns: Seq<NodeModel>, np: Seq<usize>)
    ensures
        no_removes(kplace(os, ns, np)),
        forall|i: int| 0 <= i < kplace(os, ns, np).len() ==> !(#[trigger] kplace(os, ns, np)[i] is Replace),
{
    let m = partner_seq(os, ns).len() as int;
    let n = ns.len() as int;
    lemma_kplace_kinds(os, ns, np, m, n);
    let mv = keyed_moves(os, ns, np, m);
    let cr = keyed_creates(ns, os, np, n);
    assert forall|i: int| 0 <= i < kplace(os, ns, np).len() implies !(#[trigger] kplace(os, ns, np)[i] is Replace)
        && !(kplace(os, ns, np)[i] is Remove) by {
        if i < mv.len() {
            assert(kplace(os, ns, np)[i] == mv[i]);
        } else {
            assert(kplace(os, ns, np)[i] == cr[i - mv.len()]);
        }
    }
}

/// The diff of two keyed child lists, its removals skipped, turns the kept
/// partners into the new list.
#[verifier::spinoff_prover]
#[verifier::rlimit(40)]
proof fn lemma_keyed_kids_run(h: NodeModel, os: Seq<NodeModel>, ns: Seq<NodeModel>, op: Seq<usize>, np: Seq<usize>)
    requires
        holder(h),
        kids_keyed(os, ns),
        kpairs_compatible(os, ns, ns.len() as int),
        ns.len() <= usize::MAX,
        os.len() <= usize::MAX,
        kids_of(h) == Some(kept_from(os, ns, 0, 0)),
    ensures
        run_at(h, diff_children_s(os, ns, op, np), np.len() as int) == Ok::<NodeModel, Seq<char>>(put_kids(h, ns)),
        under(diff_children_s(os, ns, op, np), np),
    decreases os, ns, ns.len() + 1,
{
    let k = np.len() as int;
    let n = ns.len() as int;
    let cr = kplace(os, ns, np);
    let rm = keyed_removes(os, ns, op, os.len() as int);
    let pr = keyed_pairs(os, ns, op, np, n);
    assert(diff_children_s(os, ns, op, np) =~= cr + rm + pr);
    let mx = mix(os, ns);
    lemma_kplace(h, os, ns, np);
    lemma_holder(h, mx, ns);
    let h2 = put_kids(h, mx);
    lemma_holder(h2, mx, ns);
    lemma_kremoves_skip(h2, os, ns, op, np, os.len() as int);
    lemma_kpairs(h2, os, ns, op, np, n);
    assert(ns.take(n) + mx.skip(n) =~= ns);
    lemma_run_concat(h, cr, rm, k);
    lemma_run_concat(h, cr + rm, pr, k);
    lemma_under_concat_any(cr, rm, np);
    lemma_under_concat_any(cr + rm, pr, np);
}

/// The keyed removals turn a node holding the old list into one holding
/// the kept partners.
proof fn lemma_keyed_kids_removals(h: NodeModel, os: Seq<NodeModel>, ns: Seq<NodeModel>, op: Seq<usize>)
    requires
        holder(h),
        kpairs_compatible(os, ns, ns.len() as int),
        os.len() <= usize::MAX,
        kids_of(h) == Some(os),
    ensures
        run_removes(h, krems(os, ns, op, os.len() as int), op.len() as int) == Ok::<NodeModel, Seq<char>>(
            put_kids(h, kept_from(os, ns, 0, 0)),
        ),
        below(krems(os, ns, op, os.len() as int), op),
    decreases os, ns, os.len() + 1,
{
    assert(kept_from(os, ns, os.len() as int, 0) == Seq::<NodeModel>::empty());
    assert(os.take(os.len() as int) + kept_from(os, ns, os.len() as int, 0) =~= os);
    lemma_kremovals(h, os, ns, op, os.len() as int);
}

/// The removal paths of the diff of two keyed child lists are the keyed
/// removal paths, in another order.
#[verifier::spinoff_prover]
#[verifier::rlimit(40)]
proof fn lemma_rp_keyed_kids(os: Seq<NodeModel>, ns: Seq<NodeModel>, p: Seq<usize>, np: Seq<usize>)
    requires
        kids_keyed(os, ns),
        kpairs_compatible(os, ns, ns.len() as int),
    ensures
        rp(diff_children_s(os, ns, p, np)).to_multiset() == krems(os, ns, p, os.len() as int).to_multiset(),
    decreases os, ns, ns.len() + 1,
{
    broadcast use vstd::seq_lib::lemma_multiset_commutative;
    broadcast use vstd::multiset::group_multiset_axioms;

    let n = ns.len() as int;
    let cr = kplace(os, ns, np);
    let rm = keyed_removes(os, ns, p, os.len() as int);
    let pr = keyed_pairs(os, ns, p, np, n);
    assert(diff_children_s(os, ns, p, np) =~= cr + rm + pr);
    lemma_kplace_no_removes(os, ns, np);
    lemma_rp_none(cr, cr.len() as int);
    lemma_rp_kremoves(os, ns, p, os.len() as int);
    lemma_rp_kpairs(os, ns, p, np, n);
    lemma_krems_ms(os, ns, p, os.len() as int);
    lemma_rp_concat(cr, rm);
    lemma_rp_concat(cr + rm, pr);
    let um = unmatched_paths(os, ns, p, os.len() as int);
    assert(rp(cr + rm + pr) =~= um + rp(pr));
    assert((um + rp(pr)).to_multiset() =~= krems(os, ns, p, os.len() as int).to_multiset());
}

// ---------------------------------------------------------------------------
// Component boundaries
// ---------------------------------------------------------------------------

/// Two nodes that the diff edits in place rather than replacing: two texts,
/// two empties, two fragments, or two elements with the same tag,
/// namespace and key.
pub open spec fn same_kind(o: NodeModel, n: NodeModel) -> bool {
    match o {
        NodeModel::Text(_) => n is Text,
        NodeModel::Empty => n is Empty,
        NodeModel::Fragment(_) => n is Fragment,
        NodeModel::Element(a) => match n {
            NodeModel::Element(b) => a.tag == b.tag && a.namespace == b.namespace && a.key == b.key,
            _ => false,
        },
        NodeModel::Component(_) => false,
    }
}

/// A result for the rendered tree of component `c`, put back inside it.
pub open spec fn wrap(c: CompModel, r: Result<NodeModel, Seq<char>>) -> Result<NodeModel, Seq<char>> {
    match r {
        Ok(x) => Ok(NodeModel::Component(comp_with_rendered(c, x))),
        Err(m) => Err(m),
    }
}

/// No patch replaces a node at depth `k` or above.
pub open spec fn keeps_root(ps: Seq<PatchModel>, k: int) -> bool {
    forall|i: int| 0 <= i < ps.len() && (#[trigger] ps[i]) is Replace ==> path_of(ps[i]).len() > k
}

/// The diff of two non-component nodes of different kinds replaces the old one.
proof fn lemma_replaced(o: NodeModel, n: NodeModel, op: Seq<usize>, np: Seq<usize>)
    requires
        !(o is Component),
        !(n is Component),
        !same_kind(o, n),
    ensures
        diff_node_s(o, n, op, np) == seq![PatchModel::Replace { path: np, new: n }],
{
}

/// An edit that does not replace a list holder leaves a list holder.
proof fn lemma_holder_stays(x: NodeModel, nav: Seq<usize>, k: int, p: PatchModel)
    requires
        holder(x),
        0 <= k,
        !(p is Replace) || k < nav.len(),
    ensures
        edit_at_s(x, nav, k, p) matches Ok(y) ==> holder(y),
{
}

/// Below a component whose rendered tree holds a list, an edit that is not
/// a replacement acts on the rendered tree.
proof fn lemma_wrap_here(c: CompModel, p: PatchModel)
    requires
        holder(*c.rendered),
        !(p is Replace),
    ensures
        edit_here_s(NodeModel::Component(c), p) == wrap(c, edit_here_s(*c.rendered, p)),
{
    match *c.rendered {
        NodeModel::Element(e) => {},
        NodeModel::Fragment(f) => {
            assert(comp_with_rendered(c, *c.rendered) == c);
        },
        _ => {},
    }
}

proof fn lemma_wrap_at(c: CompModel, nav: Seq<usize>, k: int, p: PatchModel)
    requires
        holder(*c.rendered),
        0 <= k,
        !(p is Replace) || k < nav.len(),
    ensures
        edit_at_s(NodeModel::Component(c), nav, k, p) == wrap(c, edit_at_s(*c.rendered, nav, k, p)),
{
    if k >= nav.len() {
        lemma_wrap_here(c, p);
    }
}

proof fn lemma_wrap_twice(c: CompModel, x: NodeModel, r: Result<NodeModel, Seq<char>>)
    ensures
        wrap(comp_with_rendered(c, x), r) == wrap(c, r),
{
}

/// Patches that keep the root of a component's rendered list holder act on
/// the rendered tree.
proof fn lemma_wrap_run(c: CompModel, ps: Seq<PatchModel>, k: int)
    requires
        holder(*c.rendered),
        0 <= k,
        keeps_root(ps, k),
    ensures
        run_at(NodeModel::Component(c), ps, k) == wrap(c, run_at(*c.rendered, ps, k)),
        run_at(*c.rendered, ps, k) matches Ok(y) ==> holder(y),
    decreases ps.len(),
{
    if ps.len() > 0 {
        let front = ps.drop_last();
        assert forall|i: int| 0 <= i < front.len() && (#[trigger] front[i]) is Replace implies path_of(front[i]).len()
            > k by {
            assert(front[i] == ps[i]);
        }
        lemma_wrap_run(c, front, k);
        let last = ps.last();
        assert(last == ps[ps.len() - 1]);
        match run_at(*c.rendered, front, k) {
            Ok(x) => {
                if !(last is Remove) {
                    let c2 = comp_with_rendered(c, x);
                    lemma_wrap_at(c2, path_of(last), k, last);
                    lemma_wrap_twice(c, x, edit_at_s(x, path_of(last), k, last));
                    lemma_holder_stays(x, path_of(last), k, last);
                }
            },
            Err(m) => {},
        }
    }
}

/// Removals below a component whose rendered tree holds a list act on the
/// rendered tree.
proof fn lemma_wrap_removes(c: CompModel, r: Seq<Seq<usize>>, k: int)
    requires
        holder(*c.rendered),
        0 <= k,
        forall|i: int| 0 <= i < r.len() ==> (#[trigger] r[i]).len() > k,
    ensures
        run_removes(NodeModel::Component(c), r, k) == wrap(c, run_removes(*c.rendered, r, k)),
        run_removes(*c.rendered, r, k) matches Ok(y) ==> holder(y),
    decreases r.len(),
{
    if r.len() > 0 {
        let front = r.drop_last();
        assert forall|i: int| 0 <= i < front.len() implies (#[trigger] front[i]).len() > k by {
            assert(front[i] == r[i]);
        }
        lemma_wrap_removes(c, front, k);
        let last = r.last();
        assert(last == r[r.len() - 1]);
        let rm = PatchModel::Remove { path: last };
        match run_removes(*c.rendered, front, k) {
            Ok(x) => {
                let c2 = comp_with_rendered(c, x);
                lemma_wrap_at(c2, last.drop_last(), k, rm);
                lemma_wrap_twice(c, x, edit_at_s(x, last.drop_last(), k, rm));
                lemma_holder_stays(x, last.drop_last(), k, rm);
            },
            Err(m) => {},
        }
    }
}

proof fn lemma_keeps_concat(a: Seq<PatchModel>, b: Seq<PatchModel>, k: int)
    requires
        keeps_root(a, k),
        keeps_root(b, k),
    ensures
        keeps_root(a + b, k),
{
    assert forall|i: int| 0 <= i < (a + b).len() && (#[trigger] (a + b)[i]) is Replace implies path_of(
        (a + b)[i],
    ).len() > k by {
        if i < a.len() {
            assert((a + b)[i] == a[i]);
        } else {
            assert((a + b)[i] == b[i - a.len()]);
        }
    }
}

proof fn lemma_under_keeps(ps: Seq<PatchModel>, q: Seq<usize>, k: int)
    requires
        under(ps, q),
        q.len() > k,
    ensures
        keeps_root(ps, k),
{
    assert forall|i: int| 0 <= i < ps.len() && (#[trigger] ps[i]) is Replace implies path_of(ps[i]).len() > k by {
        assert(!(ps[i] is Remove));
    }
}

proof fn lemma_attrs_keep(oa: Seq<AttrModel>, na: Seq<AttrModel>, p: Seq<usize>, k: int)
    ensures
        keeps_root(remove_attrs(oa, na, p), k),
        keeps_root(diff_attrs_s(oa, na, p), k),
    decreases oa.len(),
{
    if oa.len() > 0 {
        lemma_attrs_keep(oa.drop_last(), na, p, k);
        let front = remove_attrs(oa.drop_last(), na, p);
        let all = remove_attrs(oa, na, p);
        assert forall|i: int| 0 <= i < all.len() && (#[trigger] all[i]) is Replace implies path_of(all[i]).len() > k by {
            if i < front.len() {
                assert(all[i] == front[i]);
            }
        }
    }
    let s = set_attrs(na, p);
    assert forall|i: int| 0 <= i < s.len() implies !(#[trigger] s[i] is Replace) by {}
    lemma_keeps_concat(s, remove_attrs(oa, na, p), k);
}

proof fn lemma_listeners_keep(
    ol: Seq<(Seq<char>, Seq<char>)>,
    nls: Seq<(Seq<char>, Seq<char>)>,
    p: Seq<usize>,
    j: int,
    k: int,
)
    ensures
        keeps_root(set_listeners(ol, nls, p, j), k),
        keeps_root(remove_listeners(ol, nls, p, j), k),
    decreases j,
{
    if j > 0 {
        lemma_listeners_keep(ol, nls, p, j - 1, k);
        let a = set_listeners(ol, nls, p, j - 1);
        let sa = set_listeners(ol, nls, p, j);
        assert forall|i: int| 0 <= i < sa.len() && (#[trigger] sa[i]) is Replace implies path_of(sa[i]).len() > k by {
            if i < a.len() {
                assert(sa[i] == a[i]);
            }
        }
        let b = remove_listeners(ol, nls, p, j - 1);
        let rb = remove_listeners(ol, nls, p, j);
        assert forall|i: int| 0 <= i < rb.len() && (#[trigger] rb[i]) is Replace implies path_of(rb[i]).len() > k by {
            if i < b.len() {
                assert(rb[i] == b[i]);
            }
        }
    }
}

proof fn lemma_kremoves_keep(os: Seq<NodeModel>, ns: Seq<NodeModel>, op: Seq<usize>, i: int, k: int)
    ensures
        keeps_root(keyed_removes(os, ns, op, i), k),
    decreases i,
{
    if i > 0 {
        lemma_kremoves_keep(os, ns, op, i - 1, k);
        let b = keyed_removes(os, ns, op, i - 1);
        let all = keyed_removes(os, ns, op, i);
        let f = all.len() - b.len();
        assert forall|t: int| 0 <= t < all.len() && (#[trigger] all[t]) is Replace implies path_of(all[t]).len() > k by {
            if t >= f {
                assert(all[t] == b[t - f]);
            }
        }
    }
}

proof fn lemma_tail_keep(op: Seq<usize>, ns: Seq<NodeModel>, np: Seq<usize>, lo: int, hi: int, k: int)
    ensures
        keeps_root(tail_removes(op, lo, hi), k),
        keeps_root(tail_creates(ns, np, lo, hi), k),
    decreases hi - lo,
{
    if hi > lo {
        lemma_tail_keep(op, ns, np, lo, hi - 1, k);
        let b = tail_removes(op, lo, hi - 1);
        let all = tail_removes(op, lo, hi);
        assert forall|t: int| 0 <= t < all.len() && (#[trigger] all[t]) is Replace implies path_of(all[t]).len() > k by {
            if t > 0 {
                assert(all[t] == b[t - 1]);
            }
        }
        let c = tail_creates(ns, np, lo, hi - 1);
        let call = tail_creates(ns, np, lo, hi);
        assert forall|t: int| 0 <= t < call.len() && (#[trigger] call[t]) is Replace implies path_of(call[t]).len()
            > k by {
            if t < c.len() {
                assert(call[t] == c[t]);
            }
        }
    }
}


proof fn lemma_kpairs_keep(os: Seq<NodeModel>, ns: Seq<NodeModel>, op: Seq<usize>, np: Seq<usize>, j: int)
    requires
        0 <= j <= ns.len(),
        kpairs_compatible(os, ns, j),
    ensures
        keeps_root(keyed_pairs(os, ns, op, np, j), np.len() as int),
    decreases os, ns, j,
{
    let k = np.len() as int;
    if j > 0 {
        lemma_kpairs_keep(os, ns, op, np, j - 1);
        let prev = keyed_pairs(os, ns, op, np, j - 1);
        if new_matched(os, ns, j - 1) {
            lemma_partner(os, ns, j - 1);
            lemma_kpairs_at(os, ns, j, j - 1);
            let x = partner(os, ns, j - 1);
            let q = np.push((j - 1) as usize);
            let d = diff_node_s(os[x], ns[j - 1], op.push(x as usize), q);
            lemma_round(os[x], ns[j - 1], op.push(x as usize), q);
            lemma_under_keeps(d, q, k);
            lemma_keeps_concat(prev, d, k);
            assert(keyed_pairs(os, ns, op, np, j) =~= prev + d);
        } else {
            assert(keyed_pairs(os, ns, op, np, j) =~= prev);
        }
    }
}

proof fn lemma_ppairs_keep(os: Seq<NodeModel>, ns: Seq<NodeModel>, op: Seq<usize>, np: Seq<usize>, j: int)
    requires
        0 <= j <= min_len(os.len() as int, ns.len() as int),
        pairs_compatible(os, ns, j),
    ensures
        keeps_root(positional_pairs(os, ns, op, np, j), np.len() as int),
    decreases os, ns, j,
{
    let k = np.len() as int;
    if j > 0 {
        lemma_ppairs_keep(os, ns, op, np, j - 1);
        let q = np.push((j - 1) as usize);
        let d = diff_node_s(os[j - 1], ns[j - 1], op.push((j - 1) as usize), q);
        lemma_round(os[j - 1], ns[j - 1], op.push((j - 1) as usize), q);
        lemma_under_keeps(d, q, k);
        lemma_keeps_concat(positional_pairs(os, ns, op, np, j - 1), d, k);
    }
}

/// The diff of two nodes of the same kind never replaces the old one itself.
proof fn lemma_same_kind_keeps(o: NodeModel, n: NodeModel, op: Seq<usize>, np: Seq<usize>)
    requires
        edit_compatible(o, n),
        same_kind(o, n),
    ensures
        keeps_root(diff_node_s(o, n, op, np), np.len() as int),
    decreases o, n, 1int,
{
    let k = np.len() as int;
    let (os, ns) = match o {
        NodeModel::Element(a) => match n {
            NodeModel::Element(b) => (a.children, b.children),
            _ => (Seq::<NodeModel>::empty(), Seq::<NodeModel>::empty()),
        },
        NodeModel::Fragment(a) => match n {
            NodeModel::Fragment(b) => (a, b),
            _ => (Seq::<NodeModel>::empty(), Seq::<NodeModel>::empty()),
        },
        _ => (Seq::<NodeModel>::empty(), Seq::<NodeModel>::empty()),
    };
    if o is Element || o is Fragment {
        let kid_ps = diff_children_s(os, ns, op, np);
        if kids_keyed(os, ns) {
            let cr = kplace(os, ns, np);
            let rm = keyed_removes(os, ns, op, os.len() as int);
            let pr = keyed_pairs(os, ns, op, np, ns.len() as int);
            assert(kid_ps =~= cr + rm + pr);
            lemma_kplace_no_removes(os, ns, np);
            lemma_kremoves_keep(os, ns, op, os.len() as int, k);
            lemma_kpairs_keep(os, ns, op, np, ns.len() as int);
            lemma_keeps_concat(cr, rm, k);
            lemma_keeps_concat(cr + rm, pr, k);
        } else {
            let m = min_len(os.len() as int, ns.len() as int);
            lemma_children_positional(os, ns, op, np);
            let pairs = positional_pairs(os, ns, op, np, m);
            let rems = tail_removes(op, ns.len() as int, os.len() as int);
            let creates = tail_creates(ns, np, os.len() as int, ns.len() as int);
            lemma_ppairs_keep(os, ns, op, np, m);
            lemma_tail_keep(op, ns, np, ns.len() as int, os.len() as int, k);
            lemma_tail_keep(op, ns, np, os.len() as int, ns.len() as int, k);
            lemma_keeps_concat(pairs, rems, k);
            lemma_keeps_concat(pairs + rems, creates, k);
        }
        match o {
            NodeModel::Element(a) => match n {
                NodeModel::Element(b) => {
                    let attrs_ps = diff_attrs_s(a.attrs, b.attrs, np);
                    let ls_ps = diff_listeners_s(a.listeners, b.listeners, np);
                    lemma_attrs_keep(a.attrs, b.attrs, np, k);
                    lemma_listeners_keep(a.listeners, b.listeners, np, b.listeners.len() as int, k);
                    lemma_listeners_keep(a.listeners, b.listeners, np, a.listeners.len() as int, k);
                    lemma_keeps_concat(
                        set_listeners(a.listeners, b.listeners, np, b.listeners.len() as int),
                        remove_listeners(a.listeners, b.listeners, np, a.listeners.len() as int),
                        k,
                    );
                    lemma_keeps_concat(attrs_ps, ls_ps, k);
                    lemma_keeps_concat(attrs_ps + ls_ps, kid_ps, k);
                },
                _ => {},
            },
            _ => {},
        }
    } else {
        let ps = diff_node_s(o, n, op, np);
        assert forall|i: int| 0 <= i < ps.len() && (#[trigger] ps[i]) is Replace implies path_of(ps[i]).len() > k by {
            match o {
                NodeModel::Text(x) => match n {
                    NodeModel::Text(y) => {
                        if x != y {
                            assert(ps[i] == PatchModel::SetText { path: np, text: y });
                        }
                    },
                    _ => {},
                },
                _ => {},
            }
        }
    }
}

proof fn lemma_apply_removes_is_run(t: NodeModel, rem: Seq<Seq<usize>>, i: int)
    requires
        0 <= i <= rem.len(),
        forall|j: int| 0 <= j < rem.len() ==> (#[trigger] rem[j]).len() > 0,
    ensures
        apply_removes_s(t, rem, i) == run_removes(t, rem.take(i), 0),
    decreases i,
{
    if i > 0 {
        lemma_apply_removes_is_run(t, rem, i - 1);
        assert(rem.take(i).drop_last() =~= rem.take(i - 1));
        assert(rem[i - 1].len() > 0);
    } else {
        assert(rem.take(0) =~= Seq::<Seq<usize>>::empty());
    }
}

/// Applying the diff of two compatible trees (see `edit_compatible`) to the
/// old tree gives the new tree. This covers any new attribute list without a
/// name twice (attributes are taken out and appended in the new order),
/// keyed children added, removed and reordered (with the fewest moves, see
/// `law_fewest_moves`), and positional children added or removed.
pub proof fn law_apply_diff_gives_new(old: NodeModel, new: NodeModel)
    requires
        edit_compatible(old, new),
    ensures
        apply_s(old, diff_node_s(old, new, Seq::empty(), Seq::empty())) == Ok::<NodeModel, Seq<char>>(new),
{
    let p = Seq::<usize>::empty();
    let ps = diff_node_s(old, new, p, p);
    let rems = rems_s(old, new, p);
    lemma_round(old, new, p, p);
    lemma_removals(old, new, p);
    lemma_rems_sdesc(old, new, p);
    lemma_rp_round(old, new, p, p);
    lemma_sort_desc(rp(ps));
    lemma_sorted_unique(sort_desc(rp(ps)), rems);
    lemma_apply_removes_is_run(old, rems, rems.len() as int);
    assert(rems.take(rems.len() as int) =~= rems);
    lemma_rest_is_run(trunc(old, new), ps, ps.len() as int);
    assert(ps.take(ps.len() as int) =~= ps);
}


/// How many ranks below `r` stay.
pub open spec fn staying(os: Seq<NodeModel>, ns: Seq<NodeModel>, r: int) -> int
    decreases r,
{
    if r <= 0 {
        0
    } else {
        staying(os, ns, r - 1) + if stays(os, ns, r - 1) {
            1int
        } else {
            0int
        }
    }
}

/// How many entries of `l` are below `r`.
pub open spec fn below_count(l: Seq<usize>, r: int) -> int
    decreases l.len(),
{
    if l.len() == 0 {
        0
    } else {
        below_count(l.drop_last(), r) + if (l.last() as int) < r {
            1int
        } else {
            0int
        }
    }
}

proof fn lemma_below_step(l: Seq<usize>, r: int)
    requires
        0 <= r <= usize::MAX,
        forall|a: int, b: int| 0 <= a < b < l.len() ==> #[trigger] l[a] != #[trigger] l[b],
    ensures
        below_count(l, r + 1) == below_count(l, r) + if l.contains(r as usize) {
            1int
        } else {
            0int
        },
    decreases l.len(),
{
    if l.len() > 0 {
        let l1 = l.drop_last();
        assert forall|a: int, b: int| 0 <= a < b < l1.len() implies #[trigger] l1[a] != #[trigger] l1[b] by {
            assert(l1[a] == l[a] && l1[b] == l[b]);
        }
        lemma_below_step(l1, r);
        if l1.contains(r as usize) {
            let w = choose|w: int| 0 <= w < l1.len() && l1[w] == r as usize;
            assert(l[w] == l1[w]);
            assert(l[w] != l[l.len() - 1]);
        }
        if l.contains(r as usize) {
            let w = choose|w: int| 0 <= w < l.len() && l[w] == r as usize;
            if w < l1.len() {
                assert(l1[w] == l[w]);
            }
        }
        if l.last() as int == r {
            assert(l[l.len() - 1] == r as usize);
        }
        if l.last() == r as usize {
            assert(l.last() as int == r);
        }
    }
}

proof fn lemma_below_all(l: Seq<usize>, m: int)
    requires
        forall|a: int| 0 <= a < l.len() ==> (#[trigger] l[a] as int) < m,
    ensures
        below_count(l, m) == l.len(),
    decreases l.len(),
{
    if l.len() > 0 {
        assert forall|a: int| 0 <= a < l.drop_last().len() implies (#[trigger] l.drop_last()[a] as int) < m by {
            assert(l.drop_last()[a] == l[a]);
        }
        lemma_below_all(l.drop_last(), m);
        assert(l.last() == l[l.len() - 1]);
    }
}

proof fn lemma_staying(os: Seq<NodeModel>, ns: Seq<NodeModel>, r: int)
    requires
        0 <= r <= partner_seq(os, ns).len(),
        partner_seq(os, ns).len() <= usize::MAX,
    ensures
        staying(os, ns, r) == below_count(lis_s(partner_seq(os, ns)), r),
    decreases r,
{
    let l = lis_s(partner_seq(os, ns));
    lemma_lis_run(partner_seq(os, ns));
    assert forall|a: int, b: int| 0 <= a < b < l.len() implies #[trigger] l[a] != #[trigger] l[b] by {
        assert(l[a] < l[b]);
    }
    if r == 0 {
        lemma_below_zero(l);
    } else {
        lemma_staying(os, ns, r - 1);
        lemma_below_step(l, r - 1);
    }
}

proof fn lemma_below_zero(l: Seq<usize>)
    ensures
        below_count(l, 0) == 0,
    decreases l.len(),
{
    if l.len() > 0 {
        lemma_below_zero(l.drop_last());
    }
}

/// Every rank below `r` that does not stay is moved once.
proof fn lemma_moves_len(os: Seq<NodeModel>, ns: Seq<NodeModel>, np: Seq<usize>, r: int)
    requires
        all_keyed(ns),
        ns.len() <= usize::MAX,
        os.len() <= usize::MAX,
        0 <= r <= partner_seq(os, ns).len(),
    ensures
        keyed_moves(os, ns, np, r).len() == r - staying(os, ns, r),
        forall|i: int|
            0 <= i < keyed_moves(os, ns, np, r).len() ==> (#[trigger] keyed_moves(os, ns, np, r)[i]) is Move
                && path_of(keyed_moves(os, ns, np, r)[i]) == np,
    decreases r,
{
    if r > 0 {
        let q = r - 1;
        lemma_moves_len(os, ns, np, q);
        lemma_rank_state(os, ns, q);
        let s = rank_state(os, ns, q);
        assert(s.contains(q));
        let w = choose|w: int| 0 <= w < s.len() && s[w] == q;
        lemma_pos_found(s, q, 0, w);
        let b = keyed_moves(os, ns, np, q);
        assert forall|i: int| 0 <= i < keyed_moves(os, ns, np, r).len() implies (#[trigger] keyed_moves(
            os,
            ns,
            np,
            r,
        )[i]) is Move && path_of(keyed_moves(os, ns, np, r)[i]) == np by {
            if i < b.len() {
                assert(keyed_moves(os, ns, np, r)[i] == b[i]);
            }
        }
    }
}

/// The diff of two lists of keyed children moves the fewest children: it
/// moves, once each, the matched children off the longest increasing run of
/// their partners' old positions taken in new order (`lis_s` of
/// `partner_seq`), and no increasing run of those positions is longer; so
/// the `Move` patches at the parent number the matched children less the
/// length of a longest increasing run.
pub proof fn law_fewest_moves(os: Seq<NodeModel>, ns: Seq<NodeModel>, np: Seq<usize>)
    requires
        all_keyed(ns),
        os.len() <= usize::MAX,
        ns.len() <= usize::MAX,
    ensures
        keyed_moves(os, ns, np, partner_seq(os, ns).len() as int).len() == partner_seq(os, ns).len() - lis_s(
            partner_seq(os, ns),
        ).len(),
        forall|i: int|
            0 <= i < keyed_moves(os, ns, np, partner_seq(os, ns).len() as int).len() ==> (#[trigger] keyed_moves(
                os,
                ns,
                np,
                partner_seq(os, ns).len() as int,
            )[i]) is Move && path_of(keyed_moves(os, ns, np, partner_seq(os, ns).len() as int)[i]) == np,
        forall|q: Seq<usize>|
            #[trigger] increasing_run(partner_seq(os, ns), q) ==> q.len() <= lis_s(partner_seq(os, ns)).len(),
{
    let ps = partner_seq(os, ns);
    let m = ps.len() as int;
    lemma_matched_news(os, ns, ns.len() as int);
    lemma_moves_len(os, ns, np, m);
    lemma_staying(os, ns, m);
    lemma_lis_run(ps);
    lemma_below_all(lis_s(ps), m);
    assert forall|q: Seq<usize>| #[trigger] increasing_run(ps, q) implies q.len() <= lis_s(ps).len() by {
        lemma_lis_longest(ps, q);
    }
}

} // verus!
