//! Mathematical models of virtual DOM nodes and the facts about them that
//! the rest of the crate relies on.
use vstd::prelude::*;
use crate::vnode::{AttrValue, Attr, Element, VNode};

verus! {

// ---------------------------------------------------------------------------
// Mathematical models
// ---------------------------------------------------------------------------

/// Model of an attribute value.
pub enum ValueModel {
    Str(Seq<char>),
    Bool(bool),
    Int(i64),
}

/// Model of an attribute.
pub struct AttrModel {
    pub name: Seq<char>,
    pub value: ValueModel,
}

/// Model of an element.
pub struct ElementModel {
    pub tag: Seq<char>,
    pub key: Option<Seq<char>>,
    pub attrs: Seq<AttrModel>,
    pub listeners: Seq<(Seq<char>, Seq<char>)>,
    pub children: Seq<NodeModel>,
    pub hid: Option<Seq<char>>,
    pub namespace: Option<Seq<char>>,
}

/// Model of a component boundary.
pub struct CompModel {
    pub name: Seq<char>,
    pub key: Option<Seq<char>>,
    pub props_json: Seq<char>,
    pub rendered: Box<NodeModel>,
}

/// Model of a node: strings become character sequences, vectors sequences.
pub enum NodeModel {
    Element(ElementModel),
    Text(Seq<char>),
    Fragment(Seq<NodeModel>),
    Component(CompModel),
    Empty,
}

pub open spec fn ostr(o: Option<String>) -> Option<Seq<char>> {
    match o {
        Some(s) => Some(s@),
        None => None,
    }
}

impl View for AttrValue {
    type V = ValueModel;

    open spec fn view(&self) -> ValueModel {
        match self {
            AttrValue::String(s) => ValueModel::Str(s@),
            AttrValue::Bool(b) => ValueModel::Bool(*b),
            AttrValue::Int(i) => ValueModel::Int(*i),
        }
    }
}

impl View for Attr {
    type V = AttrModel;

    open spec fn view(&self) -> AttrModel {
        AttrModel { name: self.name@, value: self.value@ }
    }
}

pub open spec fn attrs_model(s: Seq<Attr>) -> Seq<AttrModel> {
    s.map_values(|a: Attr| a@)
}

pub open spec fn listeners_model(s: Seq<(String, String)>) -> Seq<(Seq<char>, Seq<char>)> {
    s.map_values(|p: (String, String)| (p.0@, p.1@))
}

pub open spec fn node_model(n: VNode) -> NodeModel
    decreases n,
{
    match n {
        VNode::Element(el) => NodeModel::Element(
            ElementModel {
                tag: el.tag@,
                key: ostr(el.key),
                attrs: attrs_model(el.attrs@),
                listeners: listeners_model(el.listeners@),
                children: nodes_model(el.children@),
                hid: ostr(el.hid),
                namespace: ostr(el.namespace),
            },
        ),
        VNode::Text(t) => NodeModel::Text(t@),
        VNode::Fragment(c) => NodeModel::Fragment(nodes_model(c@)),
        VNode::Component(c) => NodeModel::Component(
            CompModel {
                name: c.name@,
                key: ostr(c.key),
                props_json: c.props_json@,
                rendered: Box::new(node_model(*c.rendered)),
            },
        ),
        VNode::Empty => NodeModel::Empty,
    }
}

pub open spec fn nodes_model(s: Seq<VNode>) -> Seq<NodeModel>
    decreases s,
{
    if s.len() == 0 {
        Seq::empty()
    } else {
        nodes_model(s.drop_last()).push(node_model(s.last()))
    }
}

pub broadcast proof fn lemma_nodes_model_len(s: Seq<VNode>)
    ensures
        #[trigger] nodes_model(s).len() == s.len(),
    decreases s.len(),
{
    if s.len() > 0 {
        lemma_nodes_model_len(s.drop_last());
    }
}

pub broadcast proof fn lemma_nodes_model_index(s: Seq<VNode>, i: int)
    requires
        0 <= i < s.len(),
    ensures
        #[trigger] nodes_model(s)[i] == node_model(s[i]),
    decreases s.len(),
{
    lemma_nodes_model_len(s.drop_last());
    if i < s.len() - 1 {
        lemma_nodes_model_index(s.drop_last(), i);
    }
}

impl View for VNode {
    type V = NodeModel;

    open spec fn view(&self) -> NodeModel {
        node_model(*self)
    }
}

impl View for Element {
    type V = ElementModel;

    open spec fn view(&self) -> ElementModel {
        match node_model(VNode::Element(*self)) {
            NodeModel::Element(e) => e,
            _ => arbitrary(),
        }
    }
}



pub proof fn lemma_nodes_model_insert(s: Seq<VNode>, i: int, x: VNode)
    requires
        0 <= i <= s.len(),
    ensures
        nodes_model(s.insert(i, x)) == nodes_model(s).insert(i, x@),
{
    broadcast use lemma_nodes_model_len, lemma_nodes_model_index;

    s.insert_ensures(i, x);
    nodes_model(s).insert_ensures(i, x@);
    assert(nodes_model(s.insert(i, x)) =~= nodes_model(s).insert(i, x@)) by {
        assert forall|j: int| 0 <= j < s.len() + 1 implies nodes_model(s.insert(i, x))[j] == nodes_model(s).insert(i, x@)[j] by {
            if j < i {
            } else if j == i {
            } else {
                assert(s.insert(i, x)[j] == s[j - 1]);
                assert(nodes_model(s).insert(i, x@)[j] == nodes_model(s)[j - 1]);
            }
        }
    }
}

pub proof fn lemma_nodes_model_remove(s: Seq<VNode>, i: int)
    requires
        0 <= i < s.len(),
    ensures
        nodes_model(s.remove(i)) == nodes_model(s).remove(i),
{
    broadcast use lemma_nodes_model_len, lemma_nodes_model_index;

    s.remove_ensures(i);
    nodes_model(s).remove_ensures(i);
    assert(nodes_model(s.remove(i)) =~= nodes_model(s).remove(i));
}

pub proof fn lemma_nodes_model_update(s: Seq<VNode>, i: int, x: VNode)
    requires
        0 <= i < s.len(),
    ensures
        nodes_model(s.update(i, x)) == nodes_model(s).update(i, x@),
{
    broadcast use lemma_nodes_model_len, lemma_nodes_model_index;

    assert(nodes_model(s.update(i, x)) =~= nodes_model(s).update(i, x@));
}

pub proof fn lemma_nodes_model_single(x: VNode)
    ensures
        nodes_model(seq![x]) == seq![x@],
{
    assert(seq![x].drop_last() =~= Seq::<VNode>::empty());
    assert(nodes_model(Seq::<VNode>::empty()) =~= Seq::<NodeModel>::empty());
    assert(nodes_model(seq![x]) == nodes_model(seq![x].drop_last()).push(node_model(seq![x].last())));
    assert(nodes_model(seq![x]) =~= seq![x@]);
}

} // verus!
