//! Applying patches to a tree, and the renderer that keeps the committed tree.
use vstd::prelude::*;
use vstd::string::StringExecFns;
use crate::model::{
    NodeModel, ElementModel, CompModel, AttrModel, ValueModel, nodes_model, attrs_model,
    listeners_model, lemma_nodes_model_insert, lemma_nodes_model_remove, lemma_nodes_model_update,
    lemma_nodes_model_single, node_model,
};
use crate::vnode::{Attr, AttrValue, Element, VComp, VNode};
use crate::patch::{Patch, PatchModel, patches_model, path_of};
use crate::error::{ComponentError, is_patch_error};
use crate::diff::{first_key, diff, diff_node_s, find_first_key, clone_path};
use crate::strutil::{str_eq, push_char, push_decimal, decimal};

verus! {

broadcast use crate::model::lemma_nodes_model_len, crate::model::lemma_nodes_model_index;

// ---------------------------------------------------------------------------
// Messages
// ---------------------------------------------------------------------------

/// The items of a path separated by `", "`.
pub open spec fn path_items(p: Seq<usize>) -> Seq<char>
    decreases p.len(),
{
    if p.len() == 0 {
        Seq::empty()
    } else if p.len() == 1 {
        decimal(p[0] as nat)
    } else {
        path_items(p.drop_last()) + ", "@ + decimal(p.last() as nat)
    }
}

/// A path in `Debug` notation, such as `[1, 2]`.
pub open spec fn dbg_path(p: Seq<usize>) -> Seq<char> {
    seq!['['] + path_items(p) + seq![']']
}

pub open spec fn leaf_msg(shown: Seq<usize>) -> Seq<char> {
    "path "@ + dbg_path(shown) + " descends into leaf"@
}

pub open spec fn oob_msg(i: usize, shown: Seq<usize>) -> Seq<char> {
    "path index "@ + decimal(i as nat) + " out of bounds at "@ + dbg_path(shown)
}

fn push_dbg_path(out: &mut String, p: &Vec<usize>)
    ensures
        final(out)@ == old(out)@ + dbg_path(p@),
{
    let ghost start = out@;
    push_char(out, '[');
    for i in 0..p.len()
        invariant
            out@ == start + seq!['['] + path_items(p@.take(i as int)),
    {
        if i > 0 {
            out.append(", ");
        }
        push_decimal(out, p[i] as u64);
        assert(p@.take(i + 1).drop_last() =~= p@.take(i as int));
        assert(out@ =~= start + seq!['['] + path_items(p@.take(i + 1)));
    }
    assert(p@.take(p@.len() as int) =~= p@);
    push_char(out, ']');
    assert(out@ =~= start + dbg_path(p@));
}

fn msg_with_path(prefix: &str, p: &Vec<usize>, suffix: &str) -> (r: String)
    ensures
        r@ == prefix@ + dbg_path(p@) + suffix@,
{
    let mut s = String::new();
    s.append(prefix);
    push_dbg_path(&mut s, p);
    s.append(suffix);
    assert(s@ =~= prefix@ + dbg_path(p@) + suffix@);
    s
}

fn leaf_message(p: &Vec<usize>) -> (r: String)
    ensures
        r@ == leaf_msg(p@),
{
    msg_with_path("path ", p, " descends into leaf")
}

fn oob_message(i: usize, p: &Vec<usize>) -> (r: String)
    ensures
        r@ == oob_msg(i, p@),
{
    let mut s = String::new();
    s.append("path index ");
    push_decimal(&mut s, i as u64);
    s.append(" out of bounds at ");
    push_dbg_path(&mut s, p);
    assert(s@ =~= oob_msg(i, p@));
    s
}

// ---------------------------------------------------------------------------
// Specification of the applier
// ---------------------------------------------------------------------------

pub open spec fn min_usize(a: usize, b: usize) -> usize {
    if a < b {
        a
    } else {
        b
    }
}

pub open spec fn elem_with_attrs(e: ElementModel, a: Seq<AttrModel>) -> ElementModel {
    ElementModel {
        tag: e.tag,
        key: e.key,
        attrs: a,
        listeners: e.listeners,
        children: e.children,
        hid: e.hid,
        namespace: e.namespace,
    }
}

pub open spec fn elem_with_listeners(e: ElementModel, l: Seq<(Seq<char>, Seq<char>)>) -> ElementModel {
    ElementModel {
        tag: e.tag,
        key: e.key,
        attrs: e.attrs,
        listeners: l,
        children: e.children,
        hid: e.hid,
        namespace: e.namespace,
    }
}

pub open spec fn elem_with_children(e: ElementModel, c: Seq<NodeModel>) -> ElementModel {
    ElementModel {
        tag: e.tag,
        key: e.key,
        attrs: e.attrs,
        listeners: e.listeners,
        children: c,
        hid: e.hid,
        namespace: e.namespace,
    }
}

pub open spec fn comp_with_rendered(c: CompModel, r: NodeModel) -> CompModel {
    CompModel { name: c.name, key: c.key, props_json: c.props_json, rendered: Box::new(r) }
}

/// The child list a patch of children edits: that of an element or fragment,
/// or of the element or fragment that a component rendered.
pub open spec fn kids_of(n: NodeModel) -> Option<Seq<NodeModel>> {
    match n {
        NodeModel::Element(e) => Some(e.children),
        NodeModel::Fragment(c) => Some(c),
        NodeModel::Component(c) => match *c.rendered {
            NodeModel::Element(e) => Some(e.children),
            NodeModel::Fragment(f) => Some(f),
            _ => None,
        },
        _ => None,
    }
}

/// `n` with the child list of `kids_of` replaced.
pub open spec fn put_kids(n: NodeModel, ks: Seq<NodeModel>) -> NodeModel {
    match n {
        NodeModel::Element(e) => NodeModel::Element(elem_with_children(e, ks)),
        NodeModel::Fragment(_) => NodeModel::Fragment(ks),
        NodeModel::Component(c) => match *c.rendered {
            NodeModel::Element(e) => NodeModel::Component(
                comp_with_rendered(c, NodeModel::Element(elem_with_children(e, ks))),
            ),
            NodeModel::Fragment(_) => NodeModel::Component(comp_with_rendered(c, NodeModel::Fragment(ks))),
            _ => n,
        },
        _ => n,
    }
}

/// The element an attribute or listener patch edits.
pub open spec fn elem_of(n: NodeModel) -> Option<ElementModel> {
    match n {
        NodeModel::Element(e) => Some(e),
        NodeModel::Component(c) => match *c.rendered {
            NodeModel::Element(e) => Some(e),
            _ => None,
        },
        _ => None,
    }
}

/// `n` with the element of `elem_of` replaced.
pub open spec fn put_elem(n: NodeModel, e2: ElementModel) -> NodeModel {
    match n {
        NodeModel::Element(_) => NodeModel::Element(e2),
        NodeModel::Component(c) => NodeModel::Component(comp_with_rendered(c, NodeModel::Element(e2))),
        _ => n,
    }
}

/// Index of the first attribute named `name` at or after `i`, or -1.
pub open spec fn first_attr_from(s: Seq<AttrModel>, name: Seq<char>, i: int) -> int
    decreases s.len() - i,
{
    if i < 0 || i >= s.len() {
        -1
    } else if s[i].name == name {
        i
    } else {
        first_attr_from(s, name, i + 1)
    }
}

/// Takes out the attributes named `name` and appends one with value `v`, so
/// that the attribute order follows the order in which they were set.
pub open spec fn set_attr_s(s: Seq<AttrModel>, name: Seq<char>, v: ValueModel) -> Seq<AttrModel> {
    without_attr(s, name).push(AttrModel { name: name, value: v })
}

/// The attributes not named `name`.
pub open spec fn without_attr(s: Seq<AttrModel>, name: Seq<char>) -> Seq<AttrModel>
    decreases s.len(),
{
    if s.len() == 0 {
        Seq::empty()
    } else {
        without_attr(s.drop_last(), name) + if s.last().name == name {
            Seq::empty()
        } else {
            seq![s.last()]
        }
    }
}

/// Index of the first listener for `ev` at or after `i`, or -1.
pub open spec fn first_listener_from(s: Seq<(Seq<char>, Seq<char>)>, ev: Seq<char>, i: int) -> int
    decreases s.len() - i,
{
    if i < 0 || i >= s.len() {
        -1
    } else if s[i].0 == ev {
        i
    } else {
        first_listener_from(s, ev, i + 1)
    }
}

/// Rebinds the first listener for `ev` to `id`, or appends a binding.
pub open spec fn set_listener_s(s: Seq<(Seq<char>, Seq<char>)>, ev: Seq<char>, id: Seq<char>) -> Seq<(Seq<char>, Seq<char>)> {
    let i = first_listener_from(s, ev, 0);
    if i < 0 {
        s.push((ev, id))
    } else {
        s.update(i, (s[i].0, id))
    }
}

/// The listeners not bound to `ev`.
pub open spec fn without_listener(s: Seq<(Seq<char>, Seq<char>)>, ev: Seq<char>) -> Seq<(Seq<char>, Seq<char>)>
    decreases s.len(),
{
    if s.len() == 0 {
        Seq::empty()
    } else {
        without_listener(s.drop_last(), ev) + if s.last().0 == ev {
            Seq::empty()
        } else {
            seq![s.last()]
        }
    }
}

pub open spec fn remove_oob_msg(idx: usize, len: nat) -> Seq<char> {
    "remove: index "@ + decimal(idx as nat) + " OOB (len "@ + decimal(len) + seq![')']
}

/// Moves the first child with key `key` to position `to`.
pub open spec fn move_in_s(ks: Seq<NodeModel>, key: Seq<char>, to: usize) -> Result<Seq<NodeModel>, Seq<char>> {
    let from = first_key(ks, key);
    if from < 0 {
        Err("Move: key `"@ + key + "` not found"@)
    } else {
        let last: int = if ks.len() == 0 {
            0
        } else {
            ks.len() - 1
        };
        let target: int = if to < last {
            to as int
        } else {
            last
        };
        if from == target {
            Ok(ks)
        } else {
            let rest = ks.remove(from);
            let idx: int = if to < rest.len() {
                to as int
            } else {
                rest.len() as int
            };
            Ok(rest.insert(idx, ks[from]))
        }
    }
}

/// What one patch does to the node it addresses (`n` is that node, or for
/// `Remove` its parent).
pub open spec fn edit_here_s(n: NodeModel, p: PatchModel) -> Result<NodeModel, Seq<char>> {
    match p {
        PatchModel::Replace { new, .. } => Ok(new),
        PatchModel::Create { index, node, .. } => match kids_of(n) {
            Some(ks) => Ok(put_kids(n, ks.insert(min_usize(index, ks.len() as usize) as int, node))),
            None => match n {
                NodeModel::Component(c) => if index == 0 {
                    Ok(NodeModel::Component(comp_with_rendered(c, NodeModel::Fragment(seq![node]))))
                } else {
                    Err("insert into component scalar inner"@)
                },
                NodeModel::Empty => Ok(NodeModel::Fragment(seq![node])),
                _ => Ok(NodeModel::Fragment(seq![n].insert(min_usize(index, 1) as int, node))),
            },
        },
        PatchModel::Remove { path } => {
            let idx = path.last();
            match kids_of(n) {
                Some(ks) => if idx >= ks.len() {
                    Err(remove_oob_msg(idx, ks.len()))
                } else {
                    Ok(put_kids(n, ks.remove(idx as int)))
                },
                None => match n {
                    NodeModel::Component(c) => if idx == 0 {
                        Ok(NodeModel::Component(comp_with_rendered(c, NodeModel::Empty)))
                    } else {
                        Err("remove: bad index for component inner at "@ + dbg_path(path))
                    },
                    _ => Err("remove: parent is leaf at "@ + dbg_path(path)),
                },
            }
        },
        PatchModel::SetText { path, text } => match n {
            NodeModel::Text(_) => Ok(NodeModel::Text(text)),
            NodeModel::Component(c) => match *c.rendered {
                NodeModel::Text(_) => Ok(NodeModel::Component(comp_with_rendered(c, NodeModel::Text(text)))),
                _ => Err("SetText targeted non-text at "@ + dbg_path(path)),
            },
            _ => Err("SetText targeted non-text at "@ + dbg_path(path)),
        },
        PatchModel::SetAttr { path, name, value } => match elem_of(n) {
            Some(e) => Ok(put_elem(n, elem_with_attrs(e, set_attr_s(e.attrs, name, value)))),
            None => Err("SetAttr targeted non-element at "@ + dbg_path(path)),
        },
        PatchModel::RemoveAttr { name, .. } => match elem_of(n) {
            Some(e) => Ok(put_elem(n, elem_with_attrs(e, without_attr(e.attrs, name)))),
            None => Ok(n),
        },
        PatchModel::SetListener { event, handler_id, .. } => match elem_of(n) {
            Some(e) => Ok(put_elem(n, elem_with_listeners(e, set_listener_s(e.listeners, event, handler_id)))),
            None => Ok(n),
        },
        PatchModel::RemoveListener { event, .. } => match elem_of(n) {
            Some(e) => Ok(put_elem(n, elem_with_listeners(e, without_listener(e.listeners, event)))),
            None => Ok(n),
        },
        PatchModel::Move { key, to, .. } => match kids_of(n) {
            Some(ks) => match move_in_s(ks, key, to) {
                Ok(k2) => Ok(put_kids(n, k2)),
                Err(m) => Err(m),
            },
            None => match n {
                NodeModel::Component(_) => Err("Move inside scalar component"@),
                _ => Err("Move inside leaf"@),
            },
        },
    }
}

/// Navigates from `n` along `nav[k..]` (looking through component boundaries
/// before each step) and applies `p` to the node reached.
pub open spec fn edit_at_s(n: NodeModel, nav: Seq<usize>, k: int, p: PatchModel) -> Result<NodeModel, Seq<char>>
    decreases n,
{
    if k < 0 || k >= nav.len() {
        edit_here_s(n, p)
    } else {
        match n {
            NodeModel::Component(c) => match edit_at_s(*c.rendered, nav, k, p) {
                Ok(r) => Ok(NodeModel::Component(comp_with_rendered(c, r))),
                Err(m) => Err(m),
            },
            NodeModel::Element(e) => {
                let i = nav[k];
                if i >= e.children.len() {
                    Err(oob_msg(i, nav))
                } else {
                    match edit_at_s(e.children[i as int], nav, k + 1, p) {
                        Ok(r) => Ok(NodeModel::Element(elem_with_children(e, e.children.update(i as int, r)))),
                        Err(m) => Err(m),
                    }
                }
            },
            NodeModel::Fragment(c) => {
                let i = nav[k];
                if i >= c.len() {
                    Err(oob_msg(i, nav))
                } else {
                    match edit_at_s(c[i as int], nav, k + 1, p) {
                        Ok(r) => Ok(NodeModel::Fragment(c.update(i as int, r))),
                        Err(m) => Err(m),
                    }
                }
            },
            _ => Err(leaf_msg(nav)),
        }
    }
}

/// Lexicographic order on paths (a proper prefix is smaller).
pub open spec fn path_less_from(a: Seq<usize>, b: Seq<usize>, i: int) -> bool
    decreases a.len() - i,
{
    if i < 0 || i >= a.len() {
        i >= 0 && i < b.len()
    } else if i >= b.len() {
        false
    } else if a[i] < b[i] {
        true
    } else if a[i] > b[i] {
        false
    } else {
        path_less_from(a, b, i + 1)
    }
}

pub open spec fn path_less(a: Seq<usize>, b: Seq<usize>) -> bool {
    path_less_from(a, b, 0)
}

/// Inserts `x` into a list sorted from largest to smallest, after the
/// entries that are not smaller than it.
pub open spec fn insert_desc(s: Seq<Seq<usize>>, x: Seq<usize>) -> Seq<Seq<usize>>
    decreases s.len(),
{
    if s.len() == 0 {
        seq![x]
    } else if path_less(s[0], x) {
        seq![x] + s
    } else {
        seq![s[0]] + insert_desc(s.drop_first(), x)
    }
}

/// Stable sort of paths from largest to smallest.
pub open spec fn sort_desc(s: Seq<Seq<usize>>) -> Seq<Seq<usize>>
    decreases s.len(),
{
    if s.len() == 0 {
        Seq::empty()
    } else {
        insert_desc(sort_desc(s.drop_last()), s.last())
    }
}

/// The paths of the `Remove` patches among the first `i`, in order.
pub open spec fn remove_paths(ps: Seq<PatchModel>, i: int) -> Seq<Seq<usize>>
    decreases i,
{
    if i <= 0 || i > ps.len() {
        Seq::empty()
    } else {
        match ps[i - 1] {
            PatchModel::Remove { path } => remove_paths(ps, i - 1).push(path),
            _ => remove_paths(ps, i - 1),
        }
    }
}

/// Removing the node at `path` (the root becomes empty).
pub open spec fn remove_s(t: NodeModel, path: Seq<usize>) -> Result<NodeModel, Seq<char>> {
    if path.len() == 0 {
        Ok(NodeModel::Empty)
    } else {
        edit_at_s(t, path.drop_last(), 0, PatchModel::Remove { path: path })
    }
}

/// The first `i` removals in order.
pub open spec fn apply_removes_s(t: NodeModel, rem: Seq<Seq<usize>>, i: int) -> Result<NodeModel, Seq<char>>
    decreases i,
{
    if i <= 0 || i > rem.len() {
        Ok(t)
    } else {
        match apply_removes_s(t, rem, i - 1) {
            Ok(t2) => remove_s(t2, rem[i - 1]),
            Err(m) => Err(m),
        }
    }
}

/// The first `i` patches other than removals, in order.
pub open spec fn apply_rest_s(t: NodeModel, ps: Seq<PatchModel>, i: int) -> Result<NodeModel, Seq<char>>
    decreases i,
{
    if i <= 0 || i > ps.len() {
        Ok(t)
    } else {
        match apply_rest_s(t, ps, i - 1) {
            Ok(t2) => match ps[i - 1] {
                PatchModel::Remove { .. } => Ok(t2),
                _ => edit_at_s(t2, path_of(ps[i - 1]), 0, ps[i - 1]),
            },
            Err(m) => Err(m),
        }
    }
}

/// Applying a patch list: all removals first, deepest and rightmost first
/// (paths in decreasing order), then the other patches in list order.
pub open spec fn apply_s(root: NodeModel, ps: Seq<PatchModel>) -> Result<NodeModel, Seq<char>> {
    let rem = sort_desc(remove_paths(ps, ps.len() as int));
    match apply_removes_s(root, rem, rem.len() as int) {
        Ok(t) => apply_rest_s(t, ps, ps.len() as int),
        Err(m) => Err(m),
    }
}

pub open spec fn node_result(r: Result<VNode, String>, s: Result<NodeModel, Seq<char>>) -> bool {
    match s {
        Ok(t) => r matches Ok(v) && v@ == t,
        Err(m) => r matches Err(e) && e@ == m,
    }
}

// ---------------------------------------------------------------------------
// Edits on child lists, attribute lists and listener lists
// ---------------------------------------------------------------------------

fn msg_path(prefix: &str, p: &Vec<usize>) -> (r: String)
    ensures
        r@ == prefix@ + dbg_path(p@),
{
    let mut s = String::new();
    s.append(prefix);
    push_dbg_path(&mut s, p);
    assert(s@ =~= prefix@ + dbg_path(p@));
    s
}

fn kids_insert(ks: &mut Vec<VNode>, index: usize, node: VNode)
    ensures
        nodes_model(final(ks)@) == nodes_model(old(ks)@).insert(
            min_usize(index, old(ks)@.len() as usize) as int,
            node@,
        ),
{
    let at = if index < ks.len() {
        index
    } else {
        ks.len()
    };
    proof {
        lemma_nodes_model_insert(ks@, at as int, node);
    }
    ks.insert(at, node);
}

fn kids_remove(ks: &mut Vec<VNode>, idx: usize) -> (r: Result<(), String>)
    ensures
        match r {
            Ok(_) => idx < old(ks)@.len() && nodes_model(final(ks)@) == nodes_model(old(ks)@).remove(idx as int),
            Err(m) => idx >= old(ks)@.len() && m@ == remove_oob_msg(idx, old(ks)@.len()),
        },
{
    if idx >= ks.len() {
        let mut s = String::new();
        s.append("remove: index ");
        push_decimal(&mut s, idx as u64);
        s.append(" OOB (len ");
        push_decimal(&mut s, ks.len() as u64);
        push_char(&mut s, ')');
        assert(s@ =~= remove_oob_msg(idx, old(ks)@.len()));
        return Err(s);
    }
    proof {
        lemma_nodes_model_remove(ks@, idx as int);
    }
    ks.remove(idx);
    Ok(())
}

fn kids_move(ks: &mut Vec<VNode>, key: &String, to: usize) -> (r: Result<(), String>)
    ensures
        match move_in_s(nodes_model(old(ks)@), key@, to) {
            Ok(k2) => r is Ok && nodes_model(final(ks)@) == k2,
            Err(m) => r matches Err(e) && e@ == m,
        },
{
    let ghost m0 = nodes_model(ks@);
    match find_first_key(ks, key.as_str()) {
        None => {
            let mut s = String::new();
            s.append("Move: key `");
            s.append(key.as_str());
            s.append("` not found");
            Err(s)
        },
        Some(from) => {
            let last = if ks.len() == 0 {
                0
            } else {
                ks.len() - 1
            };
            let target = if to < last {
                to
            } else {
                last
            };
            if from == target {
                return Ok(());
            }
            proof {
                lemma_nodes_model_remove(ks@, from as int);
            }
            let node = ks.remove(from);
            let idx = if to < ks.len() {
                to
            } else {
                ks.len()
            };
            proof {
                lemma_nodes_model_insert(ks@, idx as int, node);
                assert(node@ == m0[from as int]);
            }
            ks.insert(idx, node);
            Ok(())
        },
    }
}

fn set_attr_vec(attrs: &mut Vec<Attr>, name: &String, value: &AttrValue)
    ensures
        attrs_model(final(attrs)@) == set_attr_s(attrs_model(old(attrs)@), name@, value@),
{
    let ghost m = attrs_model(attrs@);
    remove_attr_vec(attrs, name);
    let ghost w = attrs_model(attrs@);
    let a = Attr { name: name.clone(), value: value.clone() };
    attrs.push(a);
    assert(attrs_model(attrs@) =~= w.push(a@));
}

fn remove_attr_vec(attrs: &mut Vec<Attr>, name: &String)
    ensures
        attrs_model(final(attrs)@) == without_attr(attrs_model(old(attrs)@), name@),
{
    let ghost m = attrs_model(attrs@);
    let mut kept: Vec<Attr> = Vec::new();
    let n = attrs.len();
    for i in 0..n
        invariant
            n == attrs@.len(),
            m == attrs_model(attrs@),
            attrs_model(kept@) == without_attr(m.take(i as int), name@),
    {
        assert(m.take(i + 1).drop_last() =~= m.take(i as int));
        if !str_eq(attrs[i].name.as_str(), name.as_str()) {
            kept.push(attrs[i].clone());
        }
        assert(attrs_model(kept@) =~= without_attr(m.take(i + 1), name@));
    }
    assert(m.take(n as int) =~= m);
    *attrs = kept;
}

fn set_listener_vec(ls: &mut Vec<(String, String)>, ev: &String, id: &String)
    ensures
        listeners_model(final(ls)@) == set_listener_s(listeners_model(old(ls)@), ev@, id@),
{
    let ghost m = listeners_model(ls@);
    let mut i: usize = 0;
    while i < ls.len()
        invariant
            m == listeners_model(ls@),
            m == listeners_model(old(ls)@),
            i <= ls@.len(),
            first_listener_from(m, ev@, 0) == first_listener_from(m, ev@, i as int),
        decreases ls@.len() - i,
    {
        if str_eq(ls[i].0.as_str(), ev.as_str()) {
            assert(first_listener_from(m, ev@, i as int) == i);
            let e = (ls[i].0.clone(), id.clone());
            ls.set(i, e);
            assert(listeners_model(ls@) =~= set_listener_s(m, ev@, id@));
            return;
        }
        i = i + 1;
    }
    ls.push((ev.clone(), id.clone()));
    assert(listeners_model(ls@) =~= set_listener_s(m, ev@, id@));
}

fn remove_listener_vec(ls: &mut Vec<(String, String)>, ev: &String)
    ensures
        listeners_model(final(ls)@) == without_listener(listeners_model(old(ls)@), ev@),
{
    let ghost m = listeners_model(ls@);
    let mut kept: Vec<(String, String)> = Vec::new();
    let n = ls.len();
    for i in 0..n
        invariant
            n == ls@.len(),
            m == listeners_model(ls@),
            listeners_model(kept@) == without_listener(m.take(i as int), ev@),
    {
        assert(m.take(i + 1).drop_last() =~= m.take(i as int));
        if !str_eq(ls[i].0.as_str(), ev.as_str()) {
            kept.push((ls[i].0.clone(), ls[i].1.clone()));
        }
        assert(listeners_model(kept@) =~= without_listener(m.take(i + 1), ev@));
    }
    assert(m.take(n as int) =~= m);
    *ls = kept;
}

// ---------------------------------------------------------------------------
// Edits of one node
// ---------------------------------------------------------------------------

fn insert_node(n: VNode, index: usize, node: VNode) -> (r: Result<VNode, String>)
    ensures
        node_result(r, edit_here_s(n@, PatchModel::Create { path: Seq::empty(), index: index, node: node@ })),
{
    proof {
        reveal_with_fuel(node_model, 2);
    }
    match n {
        VNode::Element(mut el) => {
            kids_insert(&mut el.children, index, node);
            Ok(VNode::Element(el))
        },
        VNode::Fragment(mut f) => {
            kids_insert(&mut f, index, node);
            Ok(VNode::Fragment(f))
        },
        VNode::Component(c) => {
            let VComp { name, key, props_json, rendered } = c;
            let inner: VNode = *rendered;
            match inner {
                VNode::Element(mut el) => {
                    kids_insert(&mut el.children, index, node);
                    Ok(VNode::Component(VComp { name, key, props_json, rendered: Box::new(VNode::Element(el)) }))
                },
                VNode::Fragment(mut f) => {
                    kids_insert(&mut f, index, node);
                    Ok(VNode::Component(VComp { name, key, props_json, rendered: Box::new(VNode::Fragment(f)) }))
                },
                _ => {
                    if index == 0 {
                        let mut v: Vec<VNode> = Vec::new();
                        v.push(node);
                        proof {
                            lemma_nodes_model_single(node);
                            assert(v@ =~= seq![node]);
                        }
                        Ok(VNode::Component(VComp { name, key, props_json, rendered: Box::new(VNode::Fragment(v)) }))
                    } else {
                        Err("insert into component scalar inner".to_owned())
                    }
                },
            }
        },
        VNode::Empty => {
            let mut v: Vec<VNode> = Vec::new();
            v.push(node);
            proof {
                lemma_nodes_model_single(node);
                assert(v@ =~= seq![node]);
            }
            Ok(VNode::Fragment(v))
        },
        VNode::Text(t) => {
            let mut v: Vec<VNode> = Vec::new();
            let tn = VNode::Text(t);
            let ghost tm = tn@;
            v.push(tn);
            proof {
                lemma_nodes_model_single(tn);
                assert(v@ =~= seq![tn]);
            }
            kids_insert(&mut v, index, node);
            Ok(VNode::Fragment(v))
        },
    }
}

fn remove_child(n: VNode, path: &Vec<usize>) -> (r: Result<VNode, String>)
    requires
        path@.len() > 0,
    ensures
        node_result(r, edit_here_s(n@, PatchModel::Remove { path: path@ })),
{
    proof {
        reveal_with_fuel(node_model, 2);
    }
    let ghost nm = n@;
    let ghost pm = PatchModel::Remove { path: path@ };
    let idx = path[path.len() - 1];
    assert(idx == path@.last());
    match n {
        VNode::Element(mut el) => {
            let ghost before = el.children@;
            match kids_remove(&mut el.children, idx) {
                Ok(_) => {
                    let r = VNode::Element(el);
                    assert(r@ == put_kids(nm, nodes_model(before).remove(idx as int)));
                    Ok(r)
                },
                Err(m) => Err(m),
            }
        },
        VNode::Fragment(mut f) => {
            match kids_remove(&mut f, idx) {
                Ok(_) => Ok(VNode::Fragment(f)),
                Err(m) => Err(m),
            }
        },
        VNode::Component(c) => remove_in_component(c, path, idx),
        _ => Err(msg_path("remove: parent is leaf at ", path)),
    }
}

#[verifier::spinoff_prover]
fn remove_in_component(c: VComp, path: &Vec<usize>, idx: usize) -> (r: Result<VNode, String>)
    requires
        path@.len() > 0,
        idx == path@.last(),
    ensures
        node_result(r, edit_here_s(VNode::Component(c)@, PatchModel::Remove { path: path@ })),
{
    proof {
        reveal_with_fuel(node_model, 2);
    }
    let ghost cm = c;
    let VComp { name, key, props_json, rendered } = c;
    let inner: VNode = *rendered;
    assert(inner == *cm.rendered);
    assert(inner@ == *(VNode::Component(cm)@)->Component_0.rendered);
    match inner {
        VNode::Element(mut el) => {
            match kids_remove(&mut el.children, idx) {
                Ok(_) => Ok(VNode::Component(VComp { name, key, props_json, rendered: Box::new(VNode::Element(el)) })),
                Err(m) => Err(m),
            }
        },
        VNode::Fragment(mut f) => {
            match kids_remove(&mut f, idx) {
                Ok(_) => Ok(VNode::Component(VComp { name, key, props_json, rendered: Box::new(VNode::Fragment(f)) })),
                Err(m) => Err(m),
            }
        },
        _ => {
            assert(kids_of(VNode::Component(cm)@) is None);
            if idx == 0 {
                let r = VNode::Component(VComp { name, key, props_json, rendered: Box::new(VNode::Empty) });
                assert(r@ == NodeModel::Component(comp_with_rendered(VNode::Component(cm)@->Component_0, NodeModel::Empty)));
                Ok(r)
            } else {
                Err(msg_path("remove: bad index for component inner at ", path))
            }
        },
    }
}

fn set_text_node(n: VNode, text: &String, path: &Vec<usize>) -> (r: Result<VNode, String>)
    ensures
        node_result(r, edit_here_s(n@, PatchModel::SetText { path: path@, text: text@ })),
{
    proof {
        reveal_with_fuel(node_model, 2);
    }
    match n {
        VNode::Text(_) => Ok(VNode::Text(text.clone())),
        VNode::Component(c) => {
            let VComp { name, key, props_json, rendered } = c;
            let inner: VNode = *rendered;
            match inner {
                VNode::Text(_) => Ok(VNode::Component(VComp { name, key, props_json, rendered: Box::new(VNode::Text(text.clone())) })),
                _ => Err(msg_path("SetText targeted non-text at ", path)),
            }
        },
        _ => Err(msg_path("SetText targeted non-text at ", path)),
    }
}

fn set_attr_node(n: VNode, name: &String, value: &AttrValue, path: &Vec<usize>) -> (r: Result<VNode, String>)
    ensures
        node_result(r, edit_here_s(n@, PatchModel::SetAttr { path: path@, name: name@, value: value@ })),
{
    proof {
        reveal_with_fuel(node_model, 2);
    }
    match n {
        VNode::Element(mut el) => {
            set_attr_vec(&mut el.attrs, name, value);
            Ok(VNode::Element(el))
        },
        VNode::Component(c) => {
            let VComp { name: cname, key, props_json, rendered } = c;
            let inner: VNode = *rendered;
            match inner {
                VNode::Element(mut el) => {
                    set_attr_vec(&mut el.attrs, name, value);
                    Ok(VNode::Component(VComp { name: cname, key, props_json, rendered: Box::new(VNode::Element(el)) }))
                },
                _ => Err(msg_path("SetAttr targeted non-element at ", path)),
            }
        },
        _ => Err(msg_path("SetAttr targeted non-element at ", path)),
    }
}

/// What an attribute or listener edit does: the variant says which.
enum ElemEdit<'a> {
    RemoveAttr(&'a String),
    SetListener(&'a String, &'a String),
    RemoveListener(&'a String),
}

spec fn elem_edit_patch(e: ElemEdit) -> PatchModel {
    match e {
        ElemEdit::RemoveAttr(name) => PatchModel::RemoveAttr { path: Seq::empty(), name: name@ },
        ElemEdit::SetListener(ev, id) => PatchModel::SetListener { path: Seq::empty(), event: ev@, handler_id: id@ },
        ElemEdit::RemoveListener(ev) => PatchModel::RemoveListener { path: Seq::empty(), event: ev@ },
    }
}

fn edit_element(el: &mut Element, e: &ElemEdit)
    ensures
        edit_here_s(NodeModel::Element(old(el)@), elem_edit_patch(*e)) == Ok::<NodeModel, Seq<char>>(NodeModel::Element(final(el)@)),
{
    match e {
        ElemEdit::RemoveAttr(name) => remove_attr_vec(&mut el.attrs, name),
        ElemEdit::SetListener(ev, id) => set_listener_vec(&mut el.listeners, ev, id),
        ElemEdit::RemoveListener(ev) => remove_listener_vec(&mut el.listeners, ev),
    }
}

fn elem_node_edit(n: VNode, e: &ElemEdit) -> (r: VNode)
    ensures
        edit_here_s(n@, elem_edit_patch(*e)) == Ok::<NodeModel, Seq<char>>(r@),
{
    proof {
        reveal_with_fuel(node_model, 2);
    }
    match n {
        VNode::Element(mut el) => {
            edit_element(&mut el, e);
            VNode::Element(el)
        },
        VNode::Component(c) => {
            let VComp { name, key, props_json, rendered } = c;
            let inner: VNode = *rendered;
            match inner {
                VNode::Element(mut el) => {
                    edit_element(&mut el, e);
                    VNode::Component(VComp { name, key, props_json, rendered: Box::new(VNode::Element(el)) })
                },
                other => VNode::Component(VComp { name, key, props_json, rendered: Box::new(other) }),
            }
        },
        other => other,
    }
}

fn move_node(n: VNode, key: &String, to: usize) -> (r: Result<VNode, String>)
    ensures
        node_result(r, edit_here_s(n@, PatchModel::Move { path: Seq::empty(), from: 0, to: to, key: key@ })),
{
    proof {
        reveal_with_fuel(node_model, 2);
    }
    match n {
        VNode::Element(mut el) => {
            match kids_move(&mut el.children, key, to) {
                Ok(_) => Ok(VNode::Element(el)),
                Err(m) => Err(m),
            }
        },
        VNode::Fragment(mut f) => {
            match kids_move(&mut f, key, to) {
                Ok(_) => Ok(VNode::Fragment(f)),
                Err(m) => Err(m),
            }
        },
        VNode::Component(c) => {
            let VComp { name, key: ckey, props_json, rendered } = c;
            let inner: VNode = *rendered;
            match inner {
                VNode::Element(mut el) => {
                    match kids_move(&mut el.children, key, to) {
                        Ok(_) => Ok(VNode::Component(VComp { name, key: ckey, props_json, rendered: Box::new(VNode::Element(el)) })),
                        Err(m) => Err(m),
                    }
                },
                VNode::Fragment(mut f) => {
                    match kids_move(&mut f, key, to) {
                        Ok(_) => Ok(VNode::Component(VComp { name, key: ckey, props_json, rendered: Box::new(VNode::Fragment(f)) })),
                        Err(m) => Err(m),
                    }
                },
                _ => Err("Move inside scalar component".to_owned()),
            }
        },
        _ => Err("Move inside leaf".to_owned()),
    }
}

fn edit_here(n: VNode, p: &Patch) -> (r: Result<VNode, String>)
    requires
        p@ is Remove ==> path_of(p@).len() > 0,
    ensures
        node_result(r, edit_here_s(n@, p@)),
{
    match p {
        Patch::Replace { new, .. } => Ok(new.deep_clone()),
        Patch::Create { index, node, .. } => insert_node(n, *index, node.deep_clone()),
        Patch::Remove { path } => remove_child(n, path),
        Patch::SetText { path, text } => set_text_node(n, text, path),
        Patch::SetAttr { path, name, value } => set_attr_node(n, name, value, path),
        Patch::RemoveAttr { name, .. } => Ok(elem_node_edit(n, &ElemEdit::RemoveAttr(name))),
        Patch::SetListener { event, handler_id, .. } => Ok(elem_node_edit(n, &ElemEdit::SetListener(event, handler_id))),
        Patch::RemoveListener { event, .. } => Ok(elem_node_edit(n, &ElemEdit::RemoveListener(event))),
        Patch::Move { key, to, .. } => move_node(n, key, *to),
    }
}

#[verifier::spinoff_prover]
fn edit_at(n: VNode, nav: &Vec<usize>, k: usize, p: &Patch) -> (r: Result<VNode, String>)
    requires
        p@ is Remove ==> path_of(p@).len() > 0,
    ensures
        node_result(r, edit_at_s(n@, nav@, k as int, p@)),
    decreases n,
{
    if k >= nav.len() {
        return edit_here(n, p);
    }
    let ghost nm = n@;
    match n {
        VNode::Component(c) => {
            let ghost cm = c;
            let VComp { name, key, props_json, rendered } = c;
            assert(nm == NodeModel::Component(VNode::Component(cm)@->Component_0));
            assert((*rendered)@ == *nm->Component_0.rendered);
            match edit_at(*rendered, nav, k, p) {
                Ok(r) => {
                    let out = VNode::Component(VComp { name, key, props_json, rendered: Box::new(r) });
                    assert(out@ == NodeModel::Component(comp_with_rendered(nm->Component_0, r@)));
                    Ok(out)
                },
                Err(m) => Err(m),
            }
        },
        VNode::Element(mut el) => {
            let i = nav[k];
            if i >= el.children.len() {
                proof {
                    assert(nm->Element_0.children == nodes_model(el.children@));
                    assert(edit_at_s(nm, nav@, k as int, p@) == Err::<NodeModel, Seq<char>>(oob_msg(i, nav@)));
                }
                return Err(oob_message(i, nav));
            }
            let ghost before = el.children@;
            let child = el.children.remove(i);
            match edit_at(child, nav, k + 1, p) {
                Ok(r) => {
                    proof {
                        before.remove_ensures(i as int);
                        before.remove(i as int).insert_ensures(i as int, r);
                        assert(before.remove(i as int).insert(i as int, r) =~= before.update(i as int, r));
                        lemma_nodes_model_update(before, i as int, r);
                    }
                    el.children.insert(i, r);
                    Ok(VNode::Element(el))
                },
                Err(m) => Err(m),
            }
        },
        VNode::Fragment(mut c) => {
            let i = nav[k];
            if i >= c.len() {
                proof {
                    assert(nm->Fragment_0 == nodes_model(c@));
                    assert(edit_at_s(nm, nav@, k as int, p@) == Err::<NodeModel, Seq<char>>(oob_msg(i, nav@)));
                }
                return Err(oob_message(i, nav));
            }
            let ghost before = c@;
            let child = c.remove(i);
            match edit_at(child, nav, k + 1, p) {
                Ok(r) => {
                    proof {
                        before.remove_ensures(i as int);
                        before.remove(i as int).insert_ensures(i as int, r);
                        assert(before.remove(i as int).insert(i as int, r) =~= before.update(i as int, r));
                        lemma_nodes_model_update(before, i as int, r);
                    }
                    c.insert(i, r);
                    Ok(VNode::Fragment(c))
                },
                Err(m) => Err(m),
            }
        },
        _ => Err(leaf_message(nav)),
    }
}

// ---------------------------------------------------------------------------
// Ordering removals
// ---------------------------------------------------------------------------

fn path_lt(a: &Vec<usize>, b: &Vec<usize>) -> (r: bool)
    ensures
        r == path_less(a@, b@),
{
    let mut i: usize = 0;
    while i < a.len()
        invariant
            i <= a@.len(),
            path_less(a@, b@) == path_less_from(a@, b@, i as int),
        decreases a@.len() - i,
    {
        if i >= b.len() {
            return false;
        }
        if a[i] < b[i] {
            return true;
        }
        if a[i] > b[i] {
            return false;
        }
        i = i + 1;
    }
    i < b.len()
}

pub open spec fn paths_view(s: Seq<Vec<usize>>) -> Seq<Seq<usize>> {
    s.map_values(|v: Vec<usize>| v@)
}

/// The index at which `insert_desc` places `x`: before the first entry
/// smaller than it.
pub open spec fn desc_slot(s: Seq<Seq<usize>>, x: Seq<usize>, j: int) -> bool {
    &&& 0 <= j <= s.len()
    &&& forall|k: int| 0 <= k < j ==> !path_less(#[trigger] s[k], x)
    &&& j < s.len() ==> path_less(s[j], x)
}

proof fn lemma_insert_desc(s: Seq<Seq<usize>>, x: Seq<usize>, j: int)
    requires
        desc_slot(s, x, j),
    ensures
        insert_desc(s, x) == s.insert(j, x),
    decreases s.len(),
{
    if s.len() == 0 {
        assert(s.insert(j, x) =~= seq![x]);
    } else if path_less(s[0], x) {
        assert(j == 0);
        assert(s.insert(j, x) =~= seq![x] + s);
    } else {
        assert(j > 0);
        let t = s.drop_first();
        assert forall|k: int| 0 <= k < j - 1 implies !path_less(#[trigger] t[k], x) by {
            assert(t[k] == s[k + 1]);
        }
        lemma_insert_desc(t, x, j - 1);
        assert(s.insert(j, x) =~= seq![s[0]] + t.insert(j - 1, x));
    }
}

/// Inserts `x` into `sorted` where `insert_desc` puts it.
fn insert_path_desc(sorted: &mut Vec<Vec<usize>>, x: Vec<usize>)
    ensures
        paths_view(final(sorted)@) == insert_desc(paths_view(old(sorted)@), x@),
{
    let ghost sv = paths_view(sorted@);
    let mut j: usize = 0;
    while j < sorted.len()
        invariant
            j <= sorted@.len(),
            sv == paths_view(sorted@),
            sv == paths_view(old(sorted)@),
            forall|k: int| 0 <= k < j ==> !path_less(#[trigger] sv[k], x@),
        ensures
            j <= sorted@.len(),
            sv == paths_view(sorted@),
            sv == paths_view(old(sorted)@),
            forall|k: int| 0 <= k < j ==> !path_less(#[trigger] sv[k], x@),
            j < sorted@.len() ==> path_less(sv[j as int], x@),
        decreases sorted@.len() - j,
    {
        if path_lt(&sorted[j], &x) {
            break;
        }
        j = j + 1;
    }
    proof {
        lemma_insert_desc(sv, x@, j as int);
    }
    sorted.insert(j, x);
    assert(paths_view(sorted@) =~= sv.insert(j as int, x@));
}

/// The paths of the `Remove` patches, sorted from largest to smallest.
fn sorted_removals(patches: &[Patch]) -> (r: Vec<Vec<usize>>)
    ensures
        paths_view(r@) == sort_desc(remove_paths(patches_model(patches@), patches@.len() as int)),
{
    let ghost ps = patches_model(patches@);
    let mut sorted: Vec<Vec<usize>> = Vec::new();
    for i in 0..patches.len()
        invariant
            ps == patches_model(patches@),
            paths_view(sorted@) == sort_desc(remove_paths(ps, i as int)),
    {
        match &patches[i] {
            Patch::Remove { path } => {
                proof {
                    let rp = remove_paths(ps, i + 1);
                    assert(rp == remove_paths(ps, i as int).push(path@));
                    assert(rp.drop_last() =~= remove_paths(ps, i as int));
                }
                insert_path_desc(&mut sorted, clone_path(path));
            },
            _ => {
                assert(remove_paths(ps, i + 1) == remove_paths(ps, i as int));
            },
        }
    }
    sorted
}

// ---------------------------------------------------------------------------
// Applying a patch list
// ---------------------------------------------------------------------------

/// Removes the node at `path`; the empty path empties the tree.
fn remove_at(n: VNode, path: &Vec<usize>) -> (r: Result<VNode, String>)
    ensures
        node_result(r, remove_s(n@, path@)),
{
    if path.len() == 0 {
        return Ok(VNode::Empty);
    }
    let mut nav = clone_path(path);
    nav.pop();
    assert(nav@ =~= path@.drop_last());
    let p = Patch::Remove { path: clone_path(path) };
    edit_at(n, &nav, 0, &p)
}

fn patch_error(m: String) -> (e: ComponentError)
    ensures
        is_patch_error(e, m@),
{
    ComponentError::Lifecycle { component: "Renderer".to_owned(), hook: "patch".to_owned(), message: m }
}

/// Applies `patches` to `root`: every removal first, from the largest path
/// to the smallest, so that earlier removals do not shift later ones; then
/// the other patches in order. A path that does not lead to a node of the
/// right kind is reported as a `Lifecycle` error of the renderer's `patch`
/// hook.
pub fn apply_patches_to_tree(root: VNode, patches: &[Patch]) -> (r: Result<VNode, ComponentError>)
    ensures
        match apply_s(root@, patches_model(patches@)) {
            Ok(t) => r matches Ok(v) && v@ == t,
            Err(m) => r matches Err(e) && is_patch_error(e, m),
        },
{
    let ghost ps = patches_model(patches@);
    let removes = sorted_removals(patches);
    let ghost rem = paths_view(removes@);
    let mut cur = root;
    for j in 0..removes.len()
        invariant
            ps == patches_model(patches@),
            rem == sort_desc(remove_paths(ps, ps.len() as int)),
            rem == paths_view(removes@),
            apply_removes_s(root@, rem, j as int) == Ok::<NodeModel, Seq<char>>(cur@),
    {
        match remove_at(cur, &removes[j]) {
            Ok(t) => {
                cur = t;
            },
            Err(m) => {
                proof {
                    lemma_removes_err(root@, rem, j + 1, removes@.len() as int);
                }
                return Err(patch_error(m));
            },
        }
    }
    let ghost removed = cur@;
    for i in 0..patches.len()
        invariant
            ps == patches_model(patches@),
            rem == sort_desc(remove_paths(ps, ps.len() as int)),
            apply_removes_s(root@, rem, rem.len() as int) == Ok::<NodeModel, Seq<char>>(removed),
            apply_rest_s(removed, ps, i as int) == Ok::<NodeModel, Seq<char>>(cur@),
    {
        let p = &patches[i];
        match p {
            Patch::Remove { .. } => {},
            _ => {
                match edit_at(cur, p.path(), 0, p) {
                    Ok(t) => {
                        cur = t;
                    },
                    Err(m) => {
                        proof {
                            lemma_rest_err(removed, ps, i + 1, patches@.len() as int);
                        }
                        return Err(patch_error(m));
                    },
                }
            },
        }
    }
    Ok(cur)
}

proof fn lemma_removes_err(t: NodeModel, rem: Seq<Seq<usize>>, i: int, n: int)
    requires
        0 < i <= n,
        n <= rem.len(),
        apply_removes_s(t, rem, i) is Err,
    ensures
        apply_removes_s(t, rem, n) == apply_removes_s(t, rem, i),
    decreases n - i,
{
    if i < n {
        lemma_removes_err(t, rem, i, n - 1);
    }
}

proof fn lemma_rest_err(t: NodeModel, ps: Seq<PatchModel>, i: int, n: int)
    requires
        0 < i <= n,
        n <= ps.len(),
        apply_rest_s(t, ps, i) is Err,
    ensures
        apply_rest_s(t, ps, n) == apply_rest_s(t, ps, i),
    decreases n - i,
{
    if i < n {
        lemma_rest_err(t, ps, i, n - 1);
    }
}

// ---------------------------------------------------------------------------
// The renderer
// ---------------------------------------------------------------------------

/// Keeps the committed tree and brings it up to date by diffing and patching.
pub struct Renderer {
    current: VNode,
    _delegator_note: (),
}

impl View for Renderer {
    type V = NodeModel;

    closed spec fn view(&self) -> NodeModel {
        self.current@
    }
}

/// The patches `update` computes from the committed tree to `next`.
pub open spec fn update_patches(committed: NodeModel, next: NodeModel) -> Seq<PatchModel> {
    diff_node_s(committed, next, Seq::empty(), Seq::empty())
}

impl Renderer {
    /// A renderer whose committed tree is `initial`.
    pub fn new(initial: VNode) -> (r: Renderer)
        ensures
            r@ == initial@,
    {
        Renderer { current: initial, _delegator_note: () }
    }

    /// The committed tree.
    pub fn current(&self) -> (r: &VNode)
        ensures
            r@ == self@,
    {
        &self.current
    }

    /// Diffs the committed tree against `next` and applies the patches to a
    /// copy of it. If they apply, `next` becomes the committed tree and the
    /// number of patches is returned; otherwise the applier's error is
    /// returned and the committed tree stays as it was.
    pub fn update(&mut self, component: &str, next: VNode) -> (r: Result<usize, ComponentError>)
        ensures
            match apply_s(old(self)@, update_patches(old(self)@, next@)) {
                Ok(_) => r matches Ok(k) && k == update_patches(old(self)@, next@).len()
                    && final(self)@ == next@,
                Err(m) => r matches Err(e) && is_patch_error(e, m) && final(self)@ == old(self)@,
            },
    {
        let committed = self.current.deep_clone();
        let patches = diff(&committed, &next);
        let n = patches.len();
        match apply_patches_to_tree(committed, patches.as_slice()) {
            Ok(_) => {
                self.current = next;
                Ok(n)
            },
            Err(e) => Err(e),
        }
    }
}

} // verus!
