//! Accessible UI components (button, input, dialog, tabs) as functions from
//! props to virtual DOM, their props validation, and the theme.
use vstd::prelude::*;
use vstd::string::StringExecFns;
use crate::model::{NodeModel, ElementModel, AttrModel, ValueModel, nodes_model};
use crate::vnode::{Attr, VNode};
use crate::error::PropsError;
use crate::strutil::{blank, is_blank};

verus! {

broadcast use crate::model::lemma_nodes_model_len, crate::model::lemma_nodes_model_index;

/// Props a component accepts, with their validation.
pub trait Props {
    fn validate(&self) -> Result<(), PropsError>;
}

impl Props for () {
    fn validate(&self) -> (r: Result<(), PropsError>)
        ensures
            r is Ok,
    {
        Ok(())
    }
}

// ---------------------------------------------------------------------------
// Building blocks of the views
// ---------------------------------------------------------------------------

/// A plain element: no key, listeners, hydration id or namespace.
pub open spec fn el_s(tag: Seq<char>, attrs: Seq<AttrModel>, children: Seq<NodeModel>) -> NodeModel {
    NodeModel::Element(
        ElementModel {
            tag: tag,
            key: None,
            attrs: attrs,
            listeners: Seq::empty(),
            children: children,
            hid: None,
            namespace: None,
        },
    )
}

pub open spec fn sattr(n: Seq<char>, v: Seq<char>) -> AttrModel {
    AttrModel { name: n, value: ValueModel::Str(v) }
}

pub open spec fn battr(n: Seq<char>, b: bool) -> AttrModel {
    AttrModel { name: n, value: ValueModel::Bool(b) }
}

/// The nodes other than empty ones, in order: what a list of nodes
/// contributes as children.
pub open spec fn drop_empty(s: Seq<NodeModel>) -> Seq<NodeModel>
    decreases s.len(),
{
    if s.len() == 0 {
        Seq::empty()
    } else if s.last() is Empty {
        drop_empty(s.drop_last())
    } else {
        drop_empty(s.drop_last()).push(s.last())
    }
}

fn non_empty_nodes(v: &Vec<VNode>) -> (r: Vec<VNode>)
    ensures
        nodes_model(r@) == drop_empty(nodes_model(v@)),
{
    let ghost m = nodes_model(v@);
    let mut out: Vec<VNode> = Vec::new();
    for i in 0..v.len()
        invariant
            m == nodes_model(v@),
            nodes_model(out@) == drop_empty(m.take(i as int)),
    {
        assert(m.take(i + 1).drop_last() =~= m.take(i as int));
        let ghost before = out@;
        match &v[i] {
            VNode::Empty => {},
            other => {
                let c = other.deep_clone();
                out.push(c);
                assert(out@.drop_last() =~= before);
            },
        }
        assert(nodes_model(out@) =~= drop_empty(m.take(i + 1)));
    }
    assert(m.take(m.len() as int) =~= m);
    out
}

fn text_node(s: &String) -> (r: VNode)
    ensures
        r@ == NodeModel::Text(s@),
{
    VNode::Text(s.clone())
}

fn one(n: VNode) -> (r: Vec<VNode>)
    ensures
        nodes_model(r@) == seq![n@],
{
    let mut v: Vec<VNode> = Vec::new();
    v.push(n);
    proof {
        crate::model::lemma_nodes_model_single(n);
        assert(v@ =~= seq![n]);
    }
    v
}

fn push_node(v: &mut Vec<VNode>, n: VNode)
    ensures
        nodes_model(final(v)@) == nodes_model(old(v)@).push(n@),
{
    let ghost before = v@;
    v.push(n);
    assert(v@.drop_last() =~= before);
}

fn str_attr(name: &str, value: &str) -> (r: Attr)
    ensures
        r@ == sattr(name@, value@),
{
    Attr { name: name.to_owned(), value: crate::vnode::AttrValue::String(value.to_owned()) }
}

fn bool_attr(name: &str, b: bool) -> (r: Attr)
    ensures
        r@ == battr(name@, b),
{
    Attr { name: name.to_owned(), value: crate::vnode::AttrValue::Bool(b) }
}

fn push_attr(v: &mut Vec<Attr>, a: Attr)
    ensures
        crate::model::attrs_model(final(v)@) == crate::model::attrs_model(old(v)@).push(a@),
{
    let ghost before = v@;
    v.push(a);
    assert(crate::model::attrs_model(v@) =~= crate::model::attrs_model(before).push(a@));
}

// ---------------------------------------------------------------------------
// Button
// ---------------------------------------------------------------------------

/// The look of a button.
#[derive(Clone, Copy, PartialEq, Eq, Structural, Debug)]
pub enum ButtonVariant {
    Primary,
    Secondary,
    GhostStyle,
}

impl Default for ButtonVariant {
    fn default() -> (r: Self)
        ensures
            r == ButtonVariant::Primary,
    {
        ButtonVariant::Primary
    }
}

#[derive(Clone, PartialEq, Debug)]
pub struct ButtonProps {
    pub label: String,
    pub variant: ButtonVariant,
    pub disabled: bool,
    pub loading: bool,
    pub aria_label: Option<String>,
    pub children: Vec<VNode>,
}

pub open spec fn variant_class(v: ButtonVariant) -> Seq<char> {
    match v {
        ButtonVariant::Primary => "rw-btn rw-btn--primary"@,
        ButtonVariant::Secondary => "rw-btn rw-btn--secondary"@,
        ButtonVariant::GhostStyle => "rw-btn rw-btn--ghost"@,
    }
}

/// A `button` with the variant's classes, `disabled` when disabled or
/// loading, `aria-busy` while loading, and an `aria-label` that is the
/// given one unless it is missing or empty, then the label; its content is
/// the children (empty ones left out) followed by the label.
pub open spec fn button_s(p: ButtonProps) -> NodeModel {
    let aria = match p.aria_label {
        Some(a) => a@,
        None => Seq::empty(),
    };
    let name = if aria.len() == 0 {
        p.label@
    } else {
        aria
    };
    let attrs = seq![sattr("class"@, variant_class(p.variant))] + (if p.disabled || p.loading {
        seq![battr("disabled"@, true)]
    } else {
        Seq::empty()
    }) + seq![battr("aria-busy"@, p.loading), sattr("aria-label"@, name)];
    el_s("button"@, attrs, drop_empty(nodes_model(p.children@)).push(NodeModel::Text(p.label@)))
}

impl Props for ButtonProps {
    /// A button needs a label that is not blank, children, or an ARIA label.
    fn validate(&self) -> (r: Result<(), PropsError>)
        ensures
            match r {
                Ok(_) => !(blank(self.label@) && self.children@.len() == 0 && self.aria_label is None),
                Err(e) => blank(self.label@) && self.children@.len() == 0 && self.aria_label is None
                    && invalid_is(e, "Button"@, "label"@, "provide label, children, or aria_label"@),
            },
    {
        if is_blank(self.label.as_str()) && self.children.len() == 0 && self.aria_label.is_none() {
            return Err(invalid("Button", "label", "provide label, children, or aria_label"));
        }
        Ok(())
    }
}

/// `e` is the `Invalid` error with these fields.
pub open spec fn invalid_is(e: PropsError, component: Seq<char>, prop: Seq<char>, hint: Seq<char>) -> bool {
    e matches PropsError::Invalid { component: c, prop: p, hint: h } && c@ == component && p@ == prop && h@ == hint
}

fn invalid(component: &str, prop: &str, hint: &str) -> (e: PropsError)
    ensures
        invalid_is(e, component@, prop@, hint@),
{
    PropsError::Invalid { component: component.to_owned(), prop: prop.to_owned(), hint: hint.to_owned() }
}

/// `attrs` holds an attribute `name` with the value `v`.
pub open spec fn carries(attrs: Seq<AttrModel>, name: Seq<char>, v: ValueModel) -> bool {
    exists|i: int| 0 <= i < attrs.len() && #[trigger] attrs[i] == (AttrModel { name: name, value: v })
}

/// A rendered button is disabled, with `disabled = true`, exactly when it
/// is disabled or loading (a loading button cannot be clicked), it never
/// carries `disabled` with another value, and `aria-busy` tells whether it
/// is loading.
pub proof fn law_button_disabled_while_loading(p: ButtonProps)
    ensures
        button_s(p) is Element,
        carries(button_s(p)->Element_0.attrs, "disabled"@, ValueModel::Bool(true)) <==> (p.disabled || p.loading),
        forall|i: int|
            0 <= i < button_s(p)->Element_0.attrs.len() && (#[trigger] button_s(p)->Element_0.attrs[i]).name
                == "disabled"@ ==> button_s(p)->Element_0.attrs[i].value == ValueModel::Bool(true),
        carries(button_s(p)->Element_0.attrs, "aria-busy"@, ValueModel::Bool(p.loading)),
{
    reveal_strlit("disabled");
    reveal_strlit("class");
    reveal_strlit("aria-busy");
    reveal_strlit("aria-label");
    assert("class"@.len() != "disabled"@.len());
    assert("aria-busy"@[0] != "disabled"@[0]);
    assert("aria-label"@[0] != "disabled"@[0]);
    let a = button_s(p)->Element_0.attrs;
    if p.disabled || p.loading {
        assert(a.len() == 4);
        assert(a[1] == (AttrModel { name: "disabled"@, value: ValueModel::Bool(true) }));
        assert(a[2] == (AttrModel { name: "aria-busy"@, value: ValueModel::Bool(p.loading) }));
        assert(a[0].name != "disabled"@);
        assert(a[3].name != "disabled"@);
    } else {
        assert(a.len() == 3);
        assert(a[1] == (AttrModel { name: "aria-busy"@, value: ValueModel::Bool(p.loading) }));
        assert(a[0].name != "disabled"@);
        assert(a[1].name != "disabled"@);
        assert(a[2].name != "disabled"@);
    }
}

/// A button.
pub struct Button;

impl Button {
    /// The button's view for `p`.
    pub fn render(&self, p: &ButtonProps) -> (r: VNode)
        ensures
            r@ == button_s(*p),
    {
        let class = match p.variant {
            ButtonVariant::Primary => "rw-btn rw-btn--primary",
            ButtonVariant::Secondary => "rw-btn rw-btn--secondary",
            ButtonVariant::GhostStyle => "rw-btn rw-btn--ghost",
        };
        let aria = match &p.aria_label {
            Some(a) => a.clone(),
            None => String::new(),
        };
        let mut attrs: Vec<Attr> = Vec::new();
        push_attr(&mut attrs, str_attr("class", class));
        if p.disabled || p.loading {
            push_attr(&mut attrs, bool_attr("disabled", true));
        }
        push_attr(&mut attrs, bool_attr("aria-busy", p.loading));
        if aria.as_str().is_empty() {
            push_attr(&mut attrs, str_attr("aria-label", p.label.as_str()));
        } else {
            push_attr(&mut attrs, str_attr("aria-label", aria.as_str()));
        }
        let mut children = non_empty_nodes(&p.children);
        push_node(&mut children, text_node(&p.label));
        let ghost am = crate::model::attrs_model(attrs@);
        assert(am =~= seq![sattr("class"@, variant_class(p.variant))] + (if p.disabled || p.loading {
            seq![battr("disabled"@, true)]
        } else {
            Seq::empty()
        }) + seq![battr("aria-busy"@, p.loading), sattr("aria-label"@, if aria@.len() == 0 {
            p.label@
        } else {
            aria@
        })]);
        VNode::element("button", attrs, children)
    }
}

/// The view of a button: `Button::render`.
pub fn render_button(props: ButtonProps) -> (r: VNode)
    ensures
        r@ == button_s(props),
{
    let b = Button;
    b.render(&props)
}

// ---------------------------------------------------------------------------
// Input
// ---------------------------------------------------------------------------

#[derive(Clone, PartialEq, Debug)]
pub struct InputProps {
    pub value: String,
    pub placeholder: Option<String>,
    pub label: Option<String>,
    pub error: Option<String>,
    pub disabled: bool,
    pub id: String,
    pub children: Vec<VNode>,
}

impl Props for InputProps {
    /// An input needs an id that is not blank, for its label.
    fn validate(&self) -> (r: Result<(), PropsError>)
        ensures
            match r {
                Ok(_) => !blank(self.id@),
                Err(e) => blank(self.id@) && invalid_is(e, "Input"@, "id"@, "id is required for label association"@),
            },
    {
        if is_blank(self.id.as_str()) {
            return Err(invalid("Input", "id", "id is required for label association"));
        }
        Ok(())
    }
}

/// A `div.rw-field` holding a `label` for the input when there is one, the
/// `input` (id, value, placeholder if any, `disabled`; when there is an
/// error `aria-invalid` and `aria-describedby` naming `ID-error`; without
/// a label, the id as `aria-label`), and the error in a `span` with role
/// `alert` when there is one.
pub open spec fn input_s(p: InputProps) -> NodeModel {
    el_s("div"@, seq![sattr("class"@, "rw-field"@)], input_head_s(p).push(el_s("input"@, input_attrs_s(p), Seq::empty()))
        + input_tail_s(p))
}

pub open spec fn error_id_s(p: InputProps) -> Seq<char> {
    p.id@ + "-error"@
}

pub open spec fn input_attrs_s(p: InputProps) -> Seq<AttrModel> {
    seq![sattr("id"@, p.id@), sattr("value"@, p.value@)] + (match p.placeholder {
        Some(ph) => seq![sattr("placeholder"@, ph@)],
        None => Seq::empty(),
    }) + seq![battr("disabled"@, p.disabled)] + (if p.error is Some {
        seq![battr("aria-invalid"@, true), sattr("aria-describedby"@, error_id_s(p))]
    } else {
        Seq::empty()
    }) + (if p.label is None {
        seq![sattr("aria-label"@, p.id@)]
    } else {
        Seq::empty()
    })
}

pub open spec fn input_head_s(p: InputProps) -> Seq<NodeModel> {
    match p.label {
        Some(l) => seq![el_s("label"@, seq![sattr("for"@, p.id@)], seq![NodeModel::Text(l@)])],
        None => Seq::empty(),
    }
}

pub open spec fn input_tail_s(p: InputProps) -> Seq<NodeModel> {
    match p.error {
        Some(e) => seq![el_s("span"@, seq![sattr("id"@, error_id_s(p)), sattr("role"@, "alert"@)], seq![NodeModel::Text(e@)])],
        None => Seq::empty(),
    }
}

/// A text input.
pub struct Input;

impl Input {
    /// The input's view for `p`.
    pub fn render(&self, p: &InputProps) -> (r: VNode)
        ensures
            r@ == input_s(*p),
    {
        let mut error_id = p.id.clone();
        error_id.append("-error");
        let mut attrs: Vec<Attr> = Vec::new();
        push_attr(&mut attrs, str_attr("id", p.id.as_str()));
        push_attr(&mut attrs, str_attr("value", p.value.as_str()));
        match &p.placeholder {
            Some(ph) => push_attr(&mut attrs, str_attr("placeholder", ph.as_str())),
            None => {},
        }
        push_attr(&mut attrs, bool_attr("disabled", p.disabled));
        if p.error.is_some() {
            push_attr(&mut attrs, bool_attr("aria-invalid", true));
            push_attr(&mut attrs, str_attr("aria-describedby", error_id.as_str()));
        }
        if p.label.is_none() {
            push_attr(&mut attrs, str_attr("aria-label", p.id.as_str()));
        }
        assert(crate::model::attrs_model(attrs@) =~= input_attrs_s(*p));
        let no_kids: Vec<VNode> = Vec::new();
        assert(nodes_model(no_kids@) =~= Seq::<NodeModel>::empty());
        let input = VNode::element("input", attrs, no_kids);
        let mut kids: Vec<VNode> = Vec::new();
        assert(nodes_model(kids@) =~= Seq::<NodeModel>::empty());
        match &p.label {
            Some(l) => {
                let mut la: Vec<Attr> = Vec::new();
                push_attr(&mut la, str_attr("for", p.id.as_str()));
                let lab = VNode::element("label", la, one(text_node(l)));
                assert(crate::model::attrs_model(la@) =~= seq![sattr("for"@, p.id@)]);
                push_node(&mut kids, lab);
            },
            None => {},
        }
        push_node(&mut kids, input);
        match &p.error {
            Some(e) => {
                let mut sa: Vec<Attr> = Vec::new();
                push_attr(&mut sa, str_attr("id", error_id.as_str()));
                push_attr(&mut sa, str_attr("role", "alert"));
                assert(crate::model::attrs_model(sa@) =~= seq![sattr("id"@, error_id@), sattr("role"@, "alert"@)]);
                let span = VNode::element("span", sa, one(text_node(e)));
                push_node(&mut kids, span);
            },
            None => {},
        }
        let mut da: Vec<Attr> = Vec::new();
        push_attr(&mut da, str_attr("class", "rw-field"));
        assert(crate::model::attrs_model(da@) =~= seq![sattr("class"@, "rw-field"@)]);
        assert(nodes_model(kids@) =~= input_head_s(*p).push(input@) + input_tail_s(*p));
        VNode::element("div", da, kids)
    }
}

/// The view of an input: `Input::render`.
pub fn render_input(props: InputProps) -> (r: VNode)
    ensures
        r@ == input_s(props),
{
    let i = Input;
    i.render(&props)
}

// ---------------------------------------------------------------------------
// Dialog
// ---------------------------------------------------------------------------

#[derive(Clone, PartialEq, Debug)]
pub struct DialogProps {
    pub open: bool,
    pub title: String,
    pub children: Vec<VNode>,
}

impl Props for DialogProps {
    /// A dialog needs a title that is not blank.
    fn validate(&self) -> (r: Result<(), PropsError>)
        ensures
            match r {
                Ok(_) => !blank(self.title@),
                Err(e) => blank(self.title@) && invalid_is(e, "Dialog"@, "title"@, "title is required for accessible dialog"@),
            },
    {
        if is_blank(self.title.as_str()) {
            return Err(invalid("Dialog", "title", "title is required for accessible dialog"));
        }
        Ok(())
    }
}

/// Nothing when closed; otherwise a backdrop holding a modal `dialog`
/// labelled by the title, with a header (the title as `h2`) and a body
/// (the children, empty ones left out).
pub open spec fn dialog_s(p: DialogProps) -> NodeModel {
    if !p.open {
        NodeModel::Empty
    } else {
        let header = el_s(
            "div"@,
            seq![sattr("class"@, "rw-dialog__header"@)],
            seq![el_s("h2"@, seq![sattr("id"@, "rw-dialog-title"@)], seq![NodeModel::Text(p.title@)])],
        );
        let body = el_s("div"@, seq![sattr("class"@, "rw-dialog__body"@)], drop_empty(nodes_model(p.children@)));
        let dialog = el_s(
            "div"@,
            seq![
                sattr("class"@, "rw-dialog"@),
                sattr("role"@, "dialog"@),
                sattr("aria-modal"@, "true"@),
                sattr("aria-label"@, p.title@),
            ],
            seq![header, body],
        );
        el_s("div"@, seq![sattr("class"@, "rw-dialog-backdrop"@), sattr("role"@, "presentation"@)], seq![dialog])
    }
}

/// A modal dialog.
pub struct Dialog;

fn attrs2(a: Attr, b: Attr) -> (r: Vec<Attr>)
    ensures
        crate::model::attrs_model(r@) == seq![a@, b@],
{
    let mut v: Vec<Attr> = Vec::new();
    push_attr(&mut v, a);
    push_attr(&mut v, b);
    assert(crate::model::attrs_model(v@) =~= seq![a@, b@]);
    v
}

fn attrs1(a: Attr) -> (r: Vec<Attr>)
    ensures
        crate::model::attrs_model(r@) == seq![a@],
{
    let mut v: Vec<Attr> = Vec::new();
    push_attr(&mut v, a);
    assert(crate::model::attrs_model(v@) =~= seq![a@]);
    v
}

impl Dialog {
    /// The dialog's view for `p`.
    pub fn render(&self, p: &DialogProps) -> (r: VNode)
        ensures
            r@ == dialog_s(*p),
    {
        if !p.open {
            return VNode::Empty;
        }
        let h2 = VNode::element("h2", attrs1(str_attr("id", "rw-dialog-title")), one(text_node(&p.title)));
        let header = VNode::element("div", attrs1(str_attr("class", "rw-dialog__header")), one(h2));
        let body = VNode::element("div", attrs1(str_attr("class", "rw-dialog__body")), non_empty_nodes(&p.children));
        let mut da: Vec<Attr> = Vec::new();
        push_attr(&mut da, str_attr("class", "rw-dialog"));
        push_attr(&mut da, str_attr("role", "dialog"));
        push_attr(&mut da, str_attr("aria-modal", "true"));
        push_attr(&mut da, str_attr("aria-label", p.title.as_str()));
        assert(crate::model::attrs_model(da@) =~= seq![
            sattr("class"@, "rw-dialog"@),
            sattr("role"@, "dialog"@),
            sattr("aria-modal"@, "true"@),
            sattr("aria-label"@, p.title@),
        ]);
        let mut dk = one(header);
        push_node(&mut dk, body);
        assert(nodes_model(dk@) =~= seq![header@, body@]);
        let dialog = VNode::element("div", da, dk);
        VNode::element("div", attrs2(str_attr("class", "rw-dialog-backdrop"), str_attr("role", "presentation")), one(dialog))
    }
}

/// The view of a dialog: `Dialog::render`.
pub fn render_dialog(props: DialogProps) -> (r: VNode)
    ensures
        r@ == dialog_s(props),
{
    let d = Dialog;
    d.render(&props)
}

// ---------------------------------------------------------------------------
// Tabs
// ---------------------------------------------------------------------------

#[derive(Clone, PartialEq, Debug)]
pub struct TabsProps {
    pub tabs: Vec<String>,
    pub selected: usize,
    pub children: Vec<VNode>,
}

impl Props for TabsProps {
    /// Tabs need at least one tab, and the selected index must be one of them.
    fn validate(&self) -> (r: Result<(), PropsError>)
        ensures
            match r {
                Ok(_) => self.tabs@.len() > 0 && self.selected < self.tabs@.len(),
                Err(e) => if self.tabs@.len() == 0 {
                    invalid_is(e, "Tabs"@, "tabs"@, "at least one tab required"@)
                } else {
                    self.selected >= self.tabs@.len() && invalid_is(e, "Tabs"@, "selected"@, "selected index out of bounds"@)
                },
            },
    {
        if self.tabs.len() == 0 {
            return Err(invalid("Tabs", "tabs", "at least one tab required"));
        }
        if self.selected >= self.tabs.len() {
            return Err(invalid("Tabs", "selected", "selected index out of bounds"));
        }
        Ok(())
    }
}

/// The tab button for label `l` at index `i`.
pub open spec fn tab_button_s(l: Seq<char>, selected: bool) -> NodeModel {
    el_s(
        "button"@,
        seq![
            sattr("role"@, "tab"@),
            battr("aria-selected"@, selected),
            AttrModel { name: "tabindex"@, value: ValueModel::Int(if selected {
                0i64
            } else {
                -1i64
            }) },
        ],
        seq![NodeModel::Text(l)],
    )
}

pub open spec fn tab_buttons_s(tabs: Seq<String>, selected: usize, i: int) -> Seq<NodeModel>
    decreases i,
{
    if i <= 0 || i > tabs.len() {
        Seq::empty()
    } else {
        tab_buttons_s(tabs, selected, i - 1).push(tab_button_s(tabs[i - 1]@, i - 1 == selected))
    }
}

/// A `div.rw-tabs` with a `tablist` of tab buttons (the selected one
/// `aria-selected` and in the tab order) and a `tabpanel` holding the
/// selected child, if there is one and it is not empty.
pub open spec fn tabs_s(p: TabsProps) -> NodeModel {
    let panel = if p.selected < p.children@.len() && !(p.children@[p.selected as int]@ is Empty) {
        seq![p.children@[p.selected as int]@]
    } else {
        Seq::empty()
    };
    el_s(
        "div"@,
        seq![sattr("class"@, "rw-tabs"@)],
        seq![
            el_s("div"@, seq![sattr("role"@, "tablist"@)], tab_buttons_s(p.tabs@, p.selected, p.tabs@.len() as int)),
            el_s("div"@, seq![sattr("role"@, "tabpanel"@)], panel),
        ],
    )
}

/// Tabs.
pub struct Tabs;

impl Tabs {
    /// The tabs' view for `p`.
    pub fn render(&self, p: &TabsProps) -> (r: VNode)
        ensures
            r@ == tabs_s(*p),
    {
        let mut list: Vec<VNode> = Vec::new();
        assert(nodes_model(list@) =~= Seq::<NodeModel>::empty());
        for i in 0..p.tabs.len()
            invariant
                nodes_model(list@) == tab_buttons_s(p.tabs@, p.selected, i as int),
        {
            let sel = i == p.selected;
            let mut a: Vec<Attr> = Vec::new();
            push_attr(&mut a, str_attr("role", "tab"));
            push_attr(&mut a, bool_attr("aria-selected", sel));
            let ti: i64 = if sel {
                0
            } else {
                -1
            };
            push_attr(&mut a, Attr { name: "tabindex".to_owned(), value: crate::vnode::AttrValue::Int(ti) });
            assert(crate::model::attrs_model(a@) =~= seq![
                sattr("role"@, "tab"@),
                battr("aria-selected"@, sel),
                AttrModel { name: "tabindex"@, value: ValueModel::Int(ti) },
            ]);
            let b = VNode::element("button", a, one(text_node(&p.tabs[i])));
            push_node(&mut list, b);
        }
        let mut panel: Vec<VNode> = Vec::new();
        if p.selected < p.children.len() {
            match &p.children[p.selected] {
                VNode::Empty => {},
                c => {
                    panel = one(c.deep_clone());
                },
            }
        }
        assert(nodes_model(panel@) =~= (if p.selected < p.children@.len() && !(p.children@[p.selected as int]@ is Empty) {
            seq![p.children@[p.selected as int]@]
        } else {
            Seq::empty()
        }));
        let tablist = VNode::element("div", attrs1(str_attr("role", "tablist")), list);
        let tabpanel = VNode::element("div", attrs1(str_attr("role", "tabpanel")), panel);
        let mut kids = one(tablist);
        push_node(&mut kids, tabpanel);
        assert(nodes_model(kids@) =~= seq![tablist@, tabpanel@]);
        VNode::element("div", attrs1(str_attr("class", "rw-tabs")), kids)
    }
}

/// The view of tabs: `Tabs::render`.
pub fn render_tabs(props: TabsProps) -> (r: VNode)
    ensures
        r@ == tabs_s(props),
{
    let t = Tabs;
    t.render(&props)
}

// ---------------------------------------------------------------------------
// Theme
// ---------------------------------------------------------------------------

/// Design tokens, written out as CSS custom properties.
#[derive(Clone, PartialEq, Debug)]
pub struct Theme {
    pub radius: String,
    pub color_primary: String,
    pub color_surface: String,
    pub color_text: String,
}

impl Default for Theme {
    fn default() -> (r: Self)
        ensures
            r.radius@ == "8px"@,
            r.color_primary@ == "#3b82f6"@,
            r.color_surface@ == "#ffffff"@,
            r.color_text@ == "#0f172a"@,
    {
        Theme {
            radius: "8px".to_owned(),
            color_primary: "#3b82f6".to_owned(),
            color_surface: "#ffffff".to_owned(),
            color_text: "#0f172a".to_owned(),
        }
    }
}

impl Theme {
    /// `--rw-radius:R;--rw-primary:P;--rw-surface:S;--rw-text:T`.
    pub fn to_text(&self) -> (r: String)
        ensures
            r@ == "--rw-radius:"@ + self.radius@ + ";--rw-primary:"@ + self.color_primary@ + ";--rw-surface:"@
                + self.color_surface@ + ";--rw-text:"@ + self.color_text@,
    {
        let mut s = "--rw-radius:".to_owned();
        s.append(self.radius.as_str());
        s.append(";--rw-primary:");
        s.append(self.color_primary.as_str());
        s.append(";--rw-surface:");
        s.append(self.color_surface.as_str());
        s.append(";--rw-text:");
        s.append(self.color_text.as_str());
        s
    }
}

} // verus!
