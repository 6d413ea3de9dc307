//! The virtual DOM: nodes, attributes, their mathematical models and the
//! basic queries and renderings over them.
use vstd::prelude::*;
use vstd::string::StringExecFns;
use crate::model::{ValueModel, AttrModel, ElementModel, CompModel, NodeModel, ostr, attrs_model, listeners_model, node_model, nodes_model, lemma_nodes_model_len, lemma_nodes_model_index};
use crate::strutil::{str_eq, push_char, debug_str, debug_repr, push_int, int_decimal, starts_with, has_prefix, i64_to_string, u64_to_string, decimal};

verus! {

broadcast use crate::model::lemma_nodes_model_len, crate::model::lemma_nodes_model_index;

/// A key that identifies a node among its siblings.
pub type Key = String;

/// The value of an attribute.
#[derive(Debug, PartialEq, Eq)]
pub enum AttrValue {
    String(String),
    Bool(bool),
    Int(i64),
}

/// A named attribute.
#[derive(Debug, PartialEq, Eq)]
pub struct Attr {
    pub name: String,
    pub value: AttrValue,
}

/// An element node.
#[derive(Debug, PartialEq, Eq)]
pub struct Element {
    pub tag: String,
    pub key: Option<Key>,
    pub attrs: Vec<Attr>,
    pub listeners: Vec<(String, String)>,
    pub children: Vec<VNode>,
    pub hid: Option<String>,
    pub namespace: Option<String>,
}

/// A component boundary together with what the component rendered.
#[derive(Debug, PartialEq, Eq)]
pub struct VComp {
    pub name: String,
    pub key: Option<Key>,
    pub props_json: String,
    pub rendered: Box<VNode>,
}

/// A virtual DOM node.
#[derive(Debug, PartialEq, Eq)]
pub enum VNode {
    Element(Element),
    Text(String),
    Fragment(Vec<VNode>),
    Component(VComp),
    Empty,
}

// ---------------------------------------------------------------------------
// Copies
// ---------------------------------------------------------------------------

pub fn clone_opt_str(o: &Option<String>) -> (r: Option<String>)
    ensures
        ostr(r) == ostr(*o),
{
    match o {
        Some(s) => Some(s.clone()),
        None => None,
    }
}

pub fn clone_attrs(v: &Vec<Attr>) -> (r: Vec<Attr>)
    ensures
        attrs_model(r@) == attrs_model(v@),
{
    let mut r: Vec<Attr> = Vec::new();
    for i in 0..v.len()
        invariant
            r@.len() == i,
            forall|j: int| 0 <= j < i ==> (#[trigger] r@[j])@ == v@[j]@,
    {
        r.push(v[i].clone());
    }
    assert(attrs_model(r@) =~= attrs_model(v@));
    r
}

pub fn clone_listeners(v: &Vec<(String, String)>) -> (r: Vec<(String, String)>)
    ensures
        listeners_model(r@) == listeners_model(v@),
{
    let mut r: Vec<(String, String)> = Vec::new();
    for i in 0..v.len()
        invariant
            r@.len() == i,
            forall|j: int| 0 <= j < i ==> (#[trigger] r@[j]).0@ == v@[j].0@ && r@[j].1@ == v@[j].1@,
    {
        let e = (v[i].0.clone(), v[i].1.clone());
        r.push(e);
    }
    assert(listeners_model(r@) =~= listeners_model(v@));
    r
}

pub fn clone_nodes(v: &Vec<VNode>) -> (r: Vec<VNode>)
    ensures
        nodes_model(r@) == nodes_model(v@),
    decreases v,
{
    let mut r: Vec<VNode> = Vec::new();
    for i in 0..v.len()
        invariant
            r@.len() == i,
            forall|j: int| 0 <= j < i ==> (#[trigger] r@[j])@ == v@[j]@,
    {
        r.push(v[i].deep_clone());
    }
    assert(nodes_model(r@) =~= nodes_model(v@));
    r
}

impl Clone for AttrValue {
    fn clone(&self) -> (r: AttrValue)
        ensures
            r@ == self@,
    {
        match self {
            AttrValue::String(s) => AttrValue::String(s.clone()),
            AttrValue::Bool(b) => AttrValue::Bool(*b),
            AttrValue::Int(i) => AttrValue::Int(*i),
        }
    }
}

impl Clone for Attr {
    fn clone(&self) -> (r: Attr)
        ensures
            r@ == self@,
    {
        Attr { name: self.name.clone(), value: self.value.clone() }
    }
}

impl Element {
    /// A copy of the element with the same model.
    pub fn deep_clone(&self) -> (r: Element)
        ensures
            r@ == self@,
        decreases self,
    {
        Element {
            tag: self.tag.clone(),
            key: clone_opt_str(&self.key),
            attrs: clone_attrs(&self.attrs),
            listeners: clone_listeners(&self.listeners),
            children: clone_nodes(&self.children),
            hid: clone_opt_str(&self.hid),
            namespace: clone_opt_str(&self.namespace),
        }
    }
}

impl VNode {
    /// A copy of the node with the same model.
    pub fn deep_clone(&self) -> (r: VNode)
        ensures
            r@ == self@,
        decreases self,
    {
        match self {
            VNode::Element(el) => VNode::Element(el.deep_clone()),
            VNode::Text(t) => VNode::Text(t.clone()),
            VNode::Fragment(c) => VNode::Fragment(clone_nodes(c)),
            VNode::Component(c) => VNode::Component(
                VComp {
                    name: c.name.clone(),
                    key: clone_opt_str(&c.key),
                    props_json: c.props_json.clone(),
                    rendered: Box::new(c.rendered.deep_clone()),
                },
            ),
            VNode::Empty => VNode::Empty,
        }
    }
}

impl Clone for Element {
    fn clone(&self) -> (r: Element)
        ensures
            r@ == self@,
    {
        self.deep_clone()
    }
}

impl Clone for VComp {
    fn clone(&self) -> (r: VComp)
        ensures
            r.name@ == self.name@,
            ostr(r.key) == ostr(self.key),
            r.props_json@ == self.props_json@,
            (*r.rendered)@ == (*self.rendered)@,
    {
        VComp {
            name: self.name.clone(),
            key: clone_opt_str(&self.key),
            props_json: self.props_json.clone(),
            rendered: Box::new(self.rendered.deep_clone()),
        }
    }
}

impl Clone for VNode {
    fn clone(&self) -> (r: VNode)
        ensures
            r@ == self@,
    {
        self.deep_clone()
    }
}

// ---------------------------------------------------------------------------
// Queries on models
// ---------------------------------------------------------------------------

pub open spec fn ostr_ref(o: Option<&str>) -> Option<Seq<char>> {
    match o {
        Some(s) => Some(s@),
        None => None,
    }
}

/// The key of a node: elements and components may carry one.
pub open spec fn key_of(n: NodeModel) -> Option<Seq<char>> {
    match n {
        NodeModel::Element(e) => e.key,
        NodeModel::Component(c) => c.key,
        _ => None,
    }
}

/// What a node stands for once component boundaries are looked through.
pub open spec fn resolve_model(n: NodeModel) -> NodeModel
    decreases n,
{
    match n {
        NodeModel::Component(c) => resolve_model(*c.rendered),
        _ => n,
    }
}

/// The number of children of a node, looking through component boundaries.
pub open spec fn child_count_model(n: NodeModel) -> nat
    decreases n,
{
    match n {
        NodeModel::Element(e) => e.children.len(),
        NodeModel::Fragment(c) => c.len(),
        NodeModel::Component(c) => child_count_model(*c.rendered),
        _ => 0,
    }
}

/// Names the framework reserves for itself.
pub open spec fn internal_name(name: Seq<char>) -> bool {
    name == "key"@ || name == "ref"@ || name == "inner_html"@
}

/// ARIA attribute names: `role` and every `aria-*`.
pub open spec fn aria_name(name: Seq<char>) -> bool {
    name == "role"@ || has_prefix(name, "aria-"@)
}

// ---------------------------------------------------------------------------
// Conversions into attribute values and child lists
// ---------------------------------------------------------------------------

/// Values that can stand as an attribute value.
pub trait IntoAttrValue: Sized {
    /// The model of the attribute value this value becomes.
    spec fn attr_value_model(&self) -> ValueModel;

    fn into_attr_value(self) -> (r: AttrValue)
        ensures
            r@ == self.attr_value_model(),
    ;
}

impl IntoAttrValue for AttrValue {
    open spec fn attr_value_model(&self) -> ValueModel {
        self@
    }

    fn into_attr_value(self) -> (r: AttrValue) {
        self
    }
}

impl IntoAttrValue for String {
    open spec fn attr_value_model(&self) -> ValueModel {
        ValueModel::Str(self@)
    }

    fn into_attr_value(self) -> (r: AttrValue) {
        AttrValue::String(self)
    }
}

impl<'a> IntoAttrValue for &'a str {
    open spec fn attr_value_model(&self) -> ValueModel {
        ValueModel::Str((*self)@)
    }

    fn into_attr_value(self) -> (r: AttrValue) {
        AttrValue::String(self.to_owned())
    }
}

impl IntoAttrValue for bool {
    open spec fn attr_value_model(&self) -> ValueModel {
        ValueModel::Bool(*self)
    }

    fn into_attr_value(self) -> (r: AttrValue) {
        AttrValue::Bool(self)
    }
}

impl IntoAttrValue for i32 {
    open spec fn attr_value_model(&self) -> ValueModel {
        ValueModel::Int(*self as i64)
    }

    fn into_attr_value(self) -> (r: AttrValue) {
        AttrValue::Int(self as i64)
    }
}

impl IntoAttrValue for i64 {
    open spec fn attr_value_model(&self) -> ValueModel {
        ValueModel::Int(*self)
    }

    fn into_attr_value(self) -> (r: AttrValue) {
        AttrValue::Int(self)
    }
}

impl IntoAttrValue for usize {
    open spec fn attr_value_model(&self) -> ValueModel {
        ValueModel::Int(*self as i64)
    }

    fn into_attr_value(self) -> (r: AttrValue) {
        AttrValue::Int(self as i64)
    }
}

impl IntoAttrValue for u32 {
    open spec fn attr_value_model(&self) -> ValueModel {
        ValueModel::Int(*self as i64)
    }

    fn into_attr_value(self) -> (r: AttrValue) {
        AttrValue::Int(self as i64)
    }
}

/// Values that can stand as children in a node list.
pub trait HtmlChild: Sized {
    /// The models of the nodes this value becomes.
    spec fn child_models(&self) -> Seq<NodeModel>;

    fn into_vnodes(self) -> (r: Vec<VNode>)
        ensures
            nodes_model(r@) == self.child_models(),
    ;
}

fn single(n: VNode) -> (r: Vec<VNode>)
    ensures
        nodes_model(r@) == seq![n@],
{
    let mut v: Vec<VNode> = Vec::new();
    v.push(n);
    proof {
        lemma_nodes_model_push(Seq::empty(), n);
        assert(v@ =~= Seq::<VNode>::empty().push(n));
        assert(nodes_model(v@) =~= seq![n@]);
    }
    v
}

impl HtmlChild for VNode {
    open spec fn child_models(&self) -> Seq<NodeModel> {
        match *self {
            VNode::Empty => Seq::empty(),
            _ => seq![self@],
        }
    }

    fn into_vnodes(self) -> (r: Vec<VNode>) {
        match self {
            VNode::Empty => Vec::new(),
            other => single(other),
        }
    }
}

impl HtmlChild for () {
    open spec fn child_models(&self) -> Seq<NodeModel> {
        Seq::empty()
    }

    fn into_vnodes(self) -> (r: Vec<VNode>) {
        Vec::new()
    }
}

impl HtmlChild for String {
    open spec fn child_models(&self) -> Seq<NodeModel> {
        seq![NodeModel::Text(self@)]
    }

    fn into_vnodes(self) -> (r: Vec<VNode>) {
        single(VNode::Text(self))
    }
}

impl<'a> HtmlChild for &'a str {
    open spec fn child_models(&self) -> Seq<NodeModel> {
        seq![NodeModel::Text((*self)@)]
    }

    fn into_vnodes(self) -> (r: Vec<VNode>) {
        single(VNode::Text(self.to_owned()))
    }
}

impl HtmlChild for i32 {
    open spec fn child_models(&self) -> Seq<NodeModel> {
        seq![NodeModel::Text(int_decimal(*self as int))]
    }

    fn into_vnodes(self) -> (r: Vec<VNode>) {
        single(VNode::Text(i64_to_string(self as i64)))
    }
}

impl HtmlChild for i64 {
    open spec fn child_models(&self) -> Seq<NodeModel> {
        seq![NodeModel::Text(int_decimal(*self as int))]
    }

    fn into_vnodes(self) -> (r: Vec<VNode>) {
        single(VNode::Text(i64_to_string(self)))
    }
}

impl HtmlChild for usize {
    open spec fn child_models(&self) -> Seq<NodeModel> {
        seq![NodeModel::Text(decimal(*self as nat))]
    }

    fn into_vnodes(self) -> (r: Vec<VNode>) {
        single(VNode::Text(u64_to_string(self as u64)))
    }
}

impl HtmlChild for bool {
    open spec fn child_models(&self) -> Seq<NodeModel> {
        if *self {
            seq![NodeModel::Text("true"@)]
        } else {
            Seq::empty()
        }
    }

    fn into_vnodes(self) -> (r: Vec<VNode>) {
        if self {
            single(VNode::Text("true".to_owned()))
        } else {
            Vec::new()
        }
    }
}

impl<T: HtmlChild> HtmlChild for Option<T> {
    open spec fn child_models(&self) -> Seq<NodeModel> {
        match *self {
            Some(v) => v.child_models(),
            None => Seq::empty(),
        }
    }

    fn into_vnodes(self) -> (r: Vec<VNode>) {
        match self {
            Some(v) => v.into_vnodes(),
            None => Vec::new(),
        }
    }
}

/// The concatenation of the child lists of the given values.
pub open spec fn flat_child_models<T: HtmlChild>(s: Seq<T>) -> Seq<NodeModel>
    decreases s.len(),
{
    if s.len() == 0 {
        Seq::empty()
    } else {
        flat_child_models(s.drop_last()) + s.last().child_models()
    }
}

pub proof fn lemma_nodes_model_append(a: Seq<VNode>, b: Seq<VNode>)
    ensures
        nodes_model(a + b) == nodes_model(a) + nodes_model(b),
{
    assert(nodes_model(a + b) =~= nodes_model(a) + nodes_model(b)) by {
        assert forall|i: int| 0 <= i < (a + b).len() implies nodes_model(a + b)[i] == (nodes_model(a) + nodes_model(b))[i] by {
            if i < a.len() {
                assert((a + b)[i] == a[i]);
            } else {
                assert((a + b)[i] == b[i - a.len()]);
            }
        }
    }
}

pub proof fn lemma_nodes_model_push(a: Seq<VNode>, x: VNode)
    ensures
        nodes_model(a.push(x)) == nodes_model(a).push(x@),
{
    assert(a.push(x).drop_last() =~= a);
}

impl<T: HtmlChild> HtmlChild for Vec<T> {
    open spec fn child_models(&self) -> Seq<NodeModel> {
        flat_child_models(self@)
    }

    fn into_vnodes(self) -> (r: Vec<VNode>) {
        let mut src = self;
        let ghost orig = src@;
        let mut rev: Vec<T> = Vec::new();
        while src.len() > 0
            invariant
                rev@.len() + src@.len() == orig.len(),
                forall|j: int| 0 <= j < src@.len() ==> #[trigger] src@[j] == orig[j],
                forall|j: int| 0 <= j < rev@.len() ==> #[trigger] rev@[j] == orig[orig.len() - 1 - j],
            decreases src@.len(),
        {
            let x = src.pop().unwrap();
            rev.push(x);
        }
        let mut out: Vec<VNode> = Vec::new();
        let ghost k: int = 0;
        while rev.len() > 0
            invariant
                0 <= k <= orig.len(),
                rev@.len() == orig.len() - k,
                forall|j: int| 0 <= j < rev@.len() ==> #[trigger] rev@[j] == orig[orig.len() - 1 - j],
                nodes_model(out@) == flat_child_models(orig.take(k)),
            decreases rev@.len(),
        {
            let x = rev.pop().unwrap();
            proof {
                assert(x == orig[k]);
            }
            let mut part = x.into_vnodes();
            proof {
                lemma_nodes_model_append(out@, part@);
                assert(orig.take(k + 1).drop_last() =~= orig.take(k));
                k = k + 1;
            }
            out.append(&mut part);
        }
        proof {
            assert(orig.take(k) =~= orig);
        }
        out
    }
}

// ---------------------------------------------------------------------------
// Construction and queries
// ---------------------------------------------------------------------------

impl Attr {
    /// An attribute named `name` with the given value.
    pub fn new<V: IntoAttrValue>(name: &str, value: V) -> (r: Attr)
        ensures
            r@ == (AttrModel { name: name@, value: value.attr_value_model() }),
    {
        Attr { name: name.to_owned(), value: value.into_attr_value() }
    }

    /// Whether `name` is reserved by the framework (`key`, `ref`, `inner_html`).
    pub fn is_internal(name: &str) -> (r: bool)
        ensures
            r == internal_name(name@),
    {
        str_eq(name, "key") || str_eq(name, "ref") || str_eq(name, "inner_html")
    }

    /// Whether `name` is an ARIA attribute: `role` or any `aria-*`.
    pub fn is_aria(name: &str) -> (r: bool)
        ensures
            r == aria_name(name@),
    {
        str_eq(name, "role") || starts_with(name, "aria-")
    }
}

impl Element {
    /// An element with the given tag and children and nothing else.
    pub fn new(tag: &str, children: Vec<VNode>) -> (r: Element)
        ensures
            r@ == (ElementModel {
                tag: tag@,
                key: None,
                attrs: Seq::empty(),
                listeners: Seq::empty(),
                children: nodes_model(children@),
                hid: None,
                namespace: None,
            }),
    {
        let r = Element {
            tag: tag.to_owned(),
            key: None,
            attrs: Vec::new(),
            listeners: Vec::new(),
            children,
            hid: None,
            namespace: None,
        };
        assert(attrs_model(r.attrs@) =~= Seq::empty());
        assert(listeners_model(r.listeners@) =~= Seq::empty());
        r
    }
}

impl VComp {
    /// A component boundary without key.
    pub fn new(name: &str, props_json: String, rendered: VNode) -> (r: VComp)
        ensures
            r.name@ == name@,
            r.key is None,
            r.props_json == props_json,
            *r.rendered == rendered,
    {
        VComp { name: name.to_owned(), key: None, props_json, rendered: Box::new(rendered) }
    }
}

impl VNode {
    /// An element node with tag, attributes and children.
    pub fn element(tag: &str, attrs: Vec<Attr>, children: Vec<VNode>) -> (r: VNode)
        ensures
            r@ == NodeModel::Element(
                ElementModel {
                    tag: tag@,
                    key: None,
                    attrs: attrs_model(attrs@),
                    listeners: Seq::empty(),
                    children: nodes_model(children@),
                    hid: None,
                    namespace: None,
                },
            ),
    {
        let listeners: Vec<(String, String)> = Vec::new();
        assert(listeners_model(listeners@) =~= Seq::empty());
        VNode::Element(
            Element {
                tag: tag.to_owned(),
                key: None,
                attrs,
                listeners,
                children,
                hid: None,
                namespace: None,
            },
        )
    }

    /// A text node.
    pub fn text(text: &str) -> (r: VNode)
        ensures
            r@ == NodeModel::Text(text@),
    {
        VNode::Text(text.to_owned())
    }

    /// A fragment of the given nodes.
    pub fn fragment(children: Vec<VNode>) -> (r: VNode)
        ensures
            r@ == NodeModel::Fragment(nodes_model(children@)),
    {
        VNode::Fragment(children)
    }

    /// A component boundary with an optional key.
    pub fn component(name: &str, key: Option<Key>, props_json: String, rendered: VNode) -> (r: VNode)
        ensures
            r@ == NodeModel::Component(
                CompModel {
                    name: name@,
                    key: ostr(key),
                    props_json: props_json@,
                    rendered: Box::new(rendered@),
                },
            ),
    {
        let mut c = VComp::new(name, props_json, rendered);
        c.key = key;
        VNode::Component(c)
    }

    /// The key of an element or component node.
    pub fn key(&self) -> (r: Option<&str>)
        ensures
            ostr_ref(r) == key_of(self@),
    {
        match self {
            VNode::Element(el) => match &el.key {
                Some(k) => Some(k.as_str()),
                None => None,
            },
            VNode::Component(c) => match &c.key {
                Some(k) => Some(k.as_str()),
                None => None,
            },
            _ => None,
        }
    }

    /// The tag of an element node.
    pub fn tag(&self) -> (r: Option<&str>)
        ensures
            ostr_ref(r) == (match self@ {
                NodeModel::Element(e) => Some(e.tag),
                _ => None,
            }),
    {
        match self {
            VNode::Element(el) => Some(el.tag.as_str()),
            _ => None,
        }
    }

    /// Name, props text and rendered node of a component node.
    pub fn as_component(&self) -> (r: Option<(&str, &str, &VNode)>)
        ensures
            match self@ {
                NodeModel::Component(c) => r matches Some(t) && t.0@ == c.name && t.1@ == c.props_json
                    && t.2@ == *c.rendered,
                _ => r is None,
            },
    {
        match self {
            VNode::Component(c) => Some((c.name.as_str(), c.props_json.as_str(), &*c.rendered)),
            _ => None,
        }
    }

    /// The node itself, or what its component boundaries rendered.
    pub fn resolved(&self) -> (r: &VNode)
        ensures
            r@ == resolve_model(self@),
        decreases self,
    {
        match self {
            VNode::Component(c) => c.rendered.resolved(),
            _ => self,
        }
    }

    /// Whether this is the empty node.
    pub fn is_empty(&self) -> (r: bool)
        ensures
            r == (self@ is Empty),
    {
        match self {
            VNode::Empty => true,
            _ => false,
        }
    }

    /// Number of children, looking through component boundaries.
    pub fn child_count(&self) -> (r: usize)
        ensures
            r == child_count_model(self@),
        decreases self,
    {
        match self {
            VNode::Element(el) => {
                proof {
                    lemma_nodes_model_len(el.children@);
                }
                el.children.len()
            },
            VNode::Fragment(c) => {
                proof {
                    lemma_nodes_model_len(c@);
                }
                c.len()
            },
            VNode::Component(c) => c.rendered.child_count(),
            _ => 0,
        }
    }
}

// ---------------------------------------------------------------------------
// Equality of models, decided
// ---------------------------------------------------------------------------

pub fn opt_str_eq(a: &Option<String>, b: &Option<String>) -> (r: bool)
    ensures
        r == (ostr(*a) == ostr(*b)),
{
    match (a, b) {
        (Some(x), Some(y)) => str_eq(x.as_str(), y.as_str()),
        (None, None) => true,
        _ => false,
    }
}

pub fn value_eq(a: &AttrValue, b: &AttrValue) -> (r: bool)
    ensures
        r == (a@ == b@),
{
    match (a, b) {
        (AttrValue::String(x), AttrValue::String(y)) => str_eq(x.as_str(), y.as_str()),
        (AttrValue::Bool(x), AttrValue::Bool(y)) => *x == *y,
        (AttrValue::Int(x), AttrValue::Int(y)) => *x == *y,
        _ => false,
    }
}

pub fn attrs_eq(a: &Vec<Attr>, b: &Vec<Attr>) -> (r: bool)
    ensures
        r == (attrs_model(a@) == attrs_model(b@)),
{
    if a.len() != b.len() {
        assert(attrs_model(a@).len() != attrs_model(b@).len());
        return false;
    }
    let mut i: usize = 0;
    while i < a.len()
        invariant
            a@.len() == b@.len(),
            i <= a@.len(),
            forall|j: int| 0 <= j < i ==> (#[trigger] a@[j])@ == b@[j]@,
        decreases a@.len() - i,
    {
        if !str_eq(a[i].name.as_str(), b[i].name.as_str()) || !value_eq(&a[i].value, &b[i].value) {
            assert(attrs_model(a@)[i as int] != attrs_model(b@)[i as int]);
            return false;
        }
        i = i + 1;
    }
    assert(attrs_model(a@) =~= attrs_model(b@));
    true
}

pub fn listeners_eq(a: &Vec<(String, String)>, b: &Vec<(String, String)>) -> (r: bool)
    ensures
        r == (listeners_model(a@) == listeners_model(b@)),
{
    if a.len() != b.len() {
        assert(listeners_model(a@).len() != listeners_model(b@).len());
        return false;
    }
    let mut i: usize = 0;
    while i < a.len()
        invariant
            a@.len() == b@.len(),
            i <= a@.len(),
            forall|j: int| 0 <= j < i ==> (#[trigger] a@[j]).0@ == b@[j].0@ && a@[j].1@ == b@[j].1@,
        decreases a@.len() - i,
    {
        if !str_eq(a[i].0.as_str(), b[i].0.as_str()) || !str_eq(a[i].1.as_str(), b[i].1.as_str()) {
            assert(listeners_model(a@)[i as int] != listeners_model(b@)[i as int]);
            return false;
        }
        i = i + 1;
    }
    assert(listeners_model(a@) =~= listeners_model(b@));
    true
}

pub fn nodes_eq(a: &Vec<VNode>, b: &Vec<VNode>) -> (r: bool)
    ensures
        r == (nodes_model(a@) == nodes_model(b@)),
    decreases a,
{
    if a.len() != b.len() {
        assert(nodes_model(a@).len() != nodes_model(b@).len());
        return false;
    }
    let mut i: usize = 0;
    while i < a.len()
        invariant
            a@.len() == b@.len(),
            i <= a@.len(),
            forall|j: int| 0 <= j < i ==> (#[trigger] a@[j])@ == b@[j]@,
        decreases a@.len() - i,
    {
        if !node_eq(&a[i], &b[i]) {
            assert(nodes_model(a@)[i as int] != nodes_model(b@)[i as int]);
            return false;
        }
        i = i + 1;
    }
    assert(nodes_model(a@) =~= nodes_model(b@));
    true
}

/// Whether two nodes have the same model.
pub fn node_eq(a: &VNode, b: &VNode) -> (r: bool)
    ensures
        r == (a@ == b@),
    decreases a,
{
    match (a, b) {
        (VNode::Element(x), VNode::Element(y)) => {
            str_eq(x.tag.as_str(), y.tag.as_str()) && opt_str_eq(&x.key, &y.key) && attrs_eq(
                &x.attrs,
                &y.attrs,
            ) && listeners_eq(&x.listeners, &y.listeners) && nodes_eq(&x.children, &y.children)
                && opt_str_eq(&x.hid, &y.hid) && opt_str_eq(&x.namespace, &y.namespace)
        },
        (VNode::Text(x), VNode::Text(y)) => str_eq(x.as_str(), y.as_str()),
        (VNode::Fragment(x), VNode::Fragment(y)) => nodes_eq(x, y),
        (VNode::Component(x), VNode::Component(y)) => {
            str_eq(x.name.as_str(), y.name.as_str()) && opt_str_eq(&x.key, &y.key) && str_eq(
                x.props_json.as_str(),
                y.props_json.as_str(),
            ) && node_eq(&x.rendered, &y.rendered)
        },
        (VNode::Empty, VNode::Empty) => true,
        _ => false,
    }
}

// ---------------------------------------------------------------------------
// HTML escaping
// ---------------------------------------------------------------------------

/// The escaped form of one character.
pub open spec fn escape_char(c: char) -> Seq<char> {
    if c == '&' {
        "&amp;"@
    } else if c == '<' {
        "&lt;"@
    } else if c == '>' {
        "&gt;"@
    } else if c == '"' {
        "&quot;"@
    } else if c == '\'' {
        "&#39;"@
    } else {
        seq![c]
    }
}

/// `s` with `& < > " '` replaced by their HTML entities.
pub open spec fn escape_seq(s: Seq<char>) -> Seq<char>
    decreases s.len(),
{
    if s.len() == 0 {
        Seq::empty()
    } else {
        escape_seq(s.drop_last()) + escape_char(s.last())
    }
}

/// Appends the HTML-escaped form of `input`.
pub fn push_escaped(out: &mut String, input: &str)
    ensures
        final(out)@ == old(out)@ + escape_seq(input@),
{
    let ghost start = out@;
    for c in it: input.chars()
        invariant
            it.seq() == input@,
            out@ == start + escape_seq(input@.take(it.index() as int)),
    {
        proof {
            assert(input@.take(it.index() + 1).drop_last() =~= input@.take(it.index() as int));
        }
        if c == '&' {
            out.append("&amp;");
        } else if c == '<' {
            out.append("&lt;");
        } else if c == '>' {
            out.append("&gt;");
        } else if c == '"' {
            out.append("&quot;");
        } else if c == '\'' {
            out.append("&#39;");
        } else {
            push_char(out, c);
        }
        assert(out@ =~= start + escape_seq(input@.take(it.index() + 1)));
    }
    assert(input@.take(input@.len() as int) =~= input@);
}

/// Escapes `& < > " '` for use in HTML text and attribute values.
pub fn escape_html(input: &str) -> (r: String)
    ensures
        r@ == escape_seq(input@),
{
    let mut out = String::new();
    push_escaped(&mut out, input);
    assert(out@ =~= escape_seq(input@));
    out
}

// ---------------------------------------------------------------------------
// S-expression rendering
// ---------------------------------------------------------------------------

/// S-expression text of one attribute.
pub open spec fn attr_sexpr(a: AttrModel) -> Seq<char> {
    match a.value {
        ValueModel::Str(v) => seq![' '] + a.name + seq!['='] + debug_repr(v),
        ValueModel::Bool(b) => if b {
            seq![' '] + a.name
        } else {
            seq![' ', '!'] + a.name
        },
        ValueModel::Int(i) => seq![' '] + a.name + seq!['='] + int_decimal(i as int),
    }
}

pub open spec fn attrs_sexpr(s: Seq<AttrModel>) -> Seq<char>
    decreases s.len(),
{
    if s.len() == 0 {
        Seq::empty()
    } else {
        attrs_sexpr(s.drop_last()) + attr_sexpr(s.last())
    }
}

pub open spec fn listeners_sexpr(s: Seq<(Seq<char>, Seq<char>)>) -> Seq<char>
    decreases s.len(),
{
    if s.len() == 0 {
        Seq::empty()
    } else {
        listeners_sexpr(s.drop_last()) + " on:"@ + s.last().0
    }
}

/// The s-expression of a node: `"text"` (debug quoted), `()`, `(<> ...)`,
/// `(Name props=... inner)` or `(tag #key attrs... on:ev... children...)`.
pub open spec fn sexpr(n: NodeModel) -> Seq<char>
    decreases n,
{
    match n {
        NodeModel::Text(t) => debug_repr(t),
        NodeModel::Empty => "()"@,
        NodeModel::Fragment(c) => "(<> "@ + joined_sexpr(c) + seq![')'],
        NodeModel::Component(c) => seq!['('] + c.name + " props="@ + c.props_json + seq![' ']
            + sexpr(*c.rendered) + seq![')'],
        NodeModel::Element(e) => seq!['('] + e.tag + (match e.key {
            Some(k) => " #"@ + k,
            None => Seq::empty(),
        }) + attrs_sexpr(e.attrs) + listeners_sexpr(e.listeners) + children_sexpr(e.children)
            + seq![')'],
    }
}

/// Each child's s-expression preceded by a space.
pub open spec fn children_sexpr(s: Seq<NodeModel>) -> Seq<char>
    decreases s,
{
    if s.len() == 0 {
        Seq::empty()
    } else {
        children_sexpr(s.drop_last()) + seq![' '] + sexpr(s.last())
    }
}

/// The children's s-expressions joined by single spaces.
pub open spec fn joined_sexpr(s: Seq<NodeModel>) -> Seq<char>
    decreases s,
{
    if s.len() == 0 {
        Seq::empty()
    } else if s.len() == 1 {
        sexpr(s[0])
    } else {
        joined_sexpr(s.drop_last()) + seq![' '] + sexpr(s.last())
    }
}

fn push_attrs_sexpr(out: &mut String, attrs: &Vec<Attr>)
    ensures
        final(out)@ == old(out)@ + attrs_sexpr(attrs_model(attrs@)),
{
    let ghost start = out@;
    let ghost m = attrs_model(attrs@);
    for i in 0..attrs.len()
        invariant
            m == attrs_model(attrs@),
            out@ == start + attrs_sexpr(m.take(i as int)),
    {
        let a = &attrs[i];
        match &a.value {
            AttrValue::String(v) => {
                push_char(out, ' ');
                out.append(a.name.as_str());
                push_char(out, '=');
                let d = debug_str(v.as_str());
                out.append(d.as_str());
            },
            AttrValue::Bool(b) => {
                push_char(out, ' ');
                if !*b {
                    push_char(out, '!');
                }
                out.append(a.name.as_str());
            },
            AttrValue::Int(v) => {
                push_char(out, ' ');
                out.append(a.name.as_str());
                push_char(out, '=');
                push_int(out, *v);
            },
        }
        assert(m.take(i + 1).drop_last() =~= m.take(i as int));
        assert(out@ =~= start + attrs_sexpr(m.take(i + 1)));
    }
    assert(m.take(attrs@.len() as int) =~= m);
}

fn push_listeners_sexpr(out: &mut String, ls: &Vec<(String, String)>)
    ensures
        final(out)@ == old(out)@ + listeners_sexpr(listeners_model(ls@)),
{
    let ghost start = out@;
    let ghost m = listeners_model(ls@);
    for i in 0..ls.len()
        invariant
            m == listeners_model(ls@),
            out@ == start + listeners_sexpr(m.take(i as int)),
    {
        out.append(" on:");
        out.append(ls[i].0.as_str());
        assert(m.take(i + 1).drop_last() =~= m.take(i as int));
        assert(out@ =~= start + listeners_sexpr(m.take(i + 1)));
    }
    assert(m.take(ls@.len() as int) =~= m);
}

fn push_joined_sexpr(c: &Vec<VNode>, out: &mut String)
    ensures
        final(out)@ == old(out)@ + joined_sexpr(nodes_model(c@)),
    decreases c,
{
    let ghost start = out@;
    let ghost m = nodes_model(c@);
    for i in 0..c.len()
        invariant
            m == nodes_model(c@),
            m.len() == c@.len(),
            out@ == start + joined_sexpr(m.take(i as int)),
    {
        if i > 0 {
            push_char(out, ' ');
        }
        push_sexpr(&c[i], out);
        assert(m.take(i + 1).drop_last() =~= m.take(i as int));
        assert(out@ =~= start + joined_sexpr(m.take(i + 1)));
    }
    assert(m.take(c@.len() as int) =~= m);
}

fn push_children_sexpr(c: &Vec<VNode>, out: &mut String)
    ensures
        final(out)@ == old(out)@ + children_sexpr(nodes_model(c@)),
    decreases c,
{
    let ghost start = out@;
    let ghost m = nodes_model(c@);
    for i in 0..c.len()
        invariant
            m == nodes_model(c@),
            m.len() == c@.len(),
            out@ == start + children_sexpr(m.take(i as int)),
    {
        push_char(out, ' ');
        push_sexpr(&c[i], out);
        assert(m.take(i + 1).drop_last() =~= m.take(i as int));
        assert(out@ =~= start + children_sexpr(m.take(i + 1)));
    }
    assert(m.take(c@.len() as int) =~= m);
}

/// Appends the s-expression of `n`.
pub fn push_sexpr(n: &VNode, out: &mut String)
    ensures
        final(out)@ == old(out)@ + sexpr(n@),
    decreases n,
{
    let ghost start = out@;
    match n {
        VNode::Text(t) => {
            let d = debug_str(t.as_str());
            out.append(d.as_str());
        },
        VNode::Empty => {
            out.append("()");
        },
        VNode::Fragment(c) => {
            out.append("(<> ");
            push_joined_sexpr(c, out);
            push_char(out, ')');
        },
        VNode::Component(c) => {
            push_char(out, '(');
            out.append(c.name.as_str());
            out.append(" props=");
            out.append(c.props_json.as_str());
            push_char(out, ' ');
            push_sexpr(&c.rendered, out);
            push_char(out, ')');
        },
        VNode::Element(el) => {
            push_char(out, '(');
            out.append(el.tag.as_str());
            match &el.key {
                Some(k) => {
                    out.append(" #");
                    out.append(k.as_str());
                },
                None => {},
            }
            push_attrs_sexpr(out, &el.attrs);
            push_listeners_sexpr(out, &el.listeners);
            push_children_sexpr(&el.children, out);
            push_char(out, ')');
        },
    }
    assert(out@ =~= start + sexpr(n@));
}

impl VNode {
    /// The s-expression snapshot text of this node.
    pub fn to_sexpr(&self) -> (r: String)
        ensures
            r@ == sexpr(self@),
    {
        let mut s = String::new();
        push_sexpr(self, &mut s);
        assert(s@ =~= sexpr(self@));
        s
    }
}

} // verus!
