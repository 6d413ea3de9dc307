//! Accessibility lint over a virtual DOM tree.
use vstd::prelude::*;
use vstd::string::StringExecFns;
use crate::model::{NodeModel, ElementModel, AttrModel, ValueModel, nodes_model, attrs_model};
use crate::vnode::{AttrValue, Attr, Element, VNode};
use crate::strutil::{blank, is_blank, str_eq, push_decimal, decimal, debug_repr, debug_str};

verus! {

broadcast use crate::model::lemma_nodes_model_len, crate::model::lemma_nodes_model_index;

/// How much a violation matters.
#[derive(Debug, Clone, Copy, PartialEq, Eq, Structural, PartialOrd, Ord)]
pub enum Severity {
    Serious,
    Moderate,
    Minor,
}

pub open spec fn severity_text(s: Severity) -> Seq<char> {
    match s {
        Severity::Serious => "serious"@,
        Severity::Moderate => "moderate"@,
        Severity::Minor => "minor"@,
    }
}

impl Severity {
    /// The lowercase name of the severity.
    pub fn text(&self) -> (r: &'static str)
        ensures
            r@ == severity_text(*self),
    {
        match self {
            Severity::Serious => "serious",
            Severity::Moderate => "moderate",
            Severity::Minor => "minor",
        }
    }
}

// ---------------------------------------------------------------------------
// Questions about an element
// ---------------------------------------------------------------------------

/// A string value that is not blank.
pub open spec fn non_blank_str(v: ValueModel) -> bool {
    match v {
        ValueModel::Str(s) => !blank(s),
        _ => false,
    }
}

/// Some attribute named `name` holds a string that is not blank.
pub open spec fn non_empty_attr_s(attrs: Seq<AttrModel>, name: Seq<char>) -> bool {
    exists|i: int| 0 <= i < attrs.len() && (#[trigger] attrs[i]).name == name && non_blank_str(attrs[i].value)
}

pub open spec fn has_attr_s(attrs: Seq<AttrModel>, name: Seq<char>) -> bool {
    exists|i: int| 0 <= i < attrs.len() && (#[trigger] attrs[i]).name == name
}

/// The string value of the first `role` attribute that has one.
pub open spec fn role_from(attrs: Seq<AttrModel>, i: int) -> Option<Seq<char>>
    decreases attrs.len() - i,
{
    if i < 0 || i >= attrs.len() {
        None
    } else if attrs[i].name == "role"@ && attrs[i].value is Str {
        Some(attrs[i].value->Str_0)
    } else {
        role_from(attrs, i + 1)
    }
}

pub open spec fn role_s(e: ElementModel) -> Option<Seq<char>> {
    role_from(e.attrs, 0)
}

fn non_empty_attr(el: &Element, name: &str) -> (r: bool)
    ensures
        r == non_empty_attr_s(el@.attrs, name@),
{
    let ghost am = attrs_model(el.attrs@);
    for i in 0..el.attrs.len()
        invariant
            am == attrs_model(el.attrs@),
            am == el@.attrs,
            forall|j: int| 0 <= j < i ==> !((#[trigger] am[j]).name == name@ && non_blank_str(am[j].value)),
    {
        if str_eq(el.attrs[i].name.as_str(), name) {
            match &el.attrs[i].value {
                AttrValue::String(s) => {
                    if !is_blank(s.as_str()) {
                        assert(am[i as int].name == name@);
                        return true;
                    }
                },
                _ => {},
            }
        }
    }
    false
}

fn has_attr(el: &Element, name: &str) -> (r: bool)
    ensures
        r == has_attr_s(el@.attrs, name@),
{
    let ghost am = attrs_model(el.attrs@);
    for i in 0..el.attrs.len()
        invariant
            am == attrs_model(el.attrs@),
            am == el@.attrs,
            forall|j: int| 0 <= j < i ==> (#[trigger] am[j]).name != name@,
    {
        if str_eq(el.attrs[i].name.as_str(), name) {
            assert(am[i as int].name == name@);
            return true;
        }
    }
    false
}

fn role(el: &Element) -> (r: Option<&String>)
    ensures
        match role_s(el@) {
            Some(v) => r matches Some(x) && x@ == v,
            None => r is None,
        },
{
    let ghost am = attrs_model(el.attrs@);
    for i in 0..el.attrs.len()
        invariant
            am == attrs_model(el.attrs@),
            am == el@.attrs,
            role_from(am, 0) == role_from(am, i as int),
    {
        if str_eq(el.attrs[i].name.as_str(), "role") {
            match &el.attrs[i].value {
                AttrValue::String(s) => {
                    return Some(s);
                },
                _ => {},
            }
        }
    }
    None
}

fn role_is(el: &Element, want: &str) -> (r: bool)
    ensures
        r == (role_s(el@) == Some(want@)),
{
    match role(el) {
        Some(s) => str_eq(s.as_str(), want),
        None => false,
    }
}

/// Text that is not blank somewhere below (images and inputs count by their
/// `alt` or `aria-label`).
pub open spec fn node_has_text_s(n: NodeModel) -> bool
    decreases n,
{
    match n {
        NodeModel::Text(t) => !blank(t),
        NodeModel::Element(e) => (e.children.len() > 0 && list_has_text_s(e.children)) || ((e.tag == "img"@
            || e.tag == "input"@) && (non_empty_attr_s(e.attrs, "alt"@) || non_empty_attr_s(
            e.attrs,
            "aria-label"@,
        ))),
        NodeModel::Fragment(c) => list_has_text_s(c),
        NodeModel::Component(c) => node_has_text_s(*c.rendered),
        NodeModel::Empty => false,
    }
}

pub open spec fn list_has_text_s(s: Seq<NodeModel>) -> bool
    decreases s,
{
    if s.len() == 0 {
        false
    } else {
        list_has_text_s(s.drop_last()) || node_has_text_s(s.last())
    }
}

/// The element's `id`, where its first `id` attribute holds a string that is
/// not blank.
pub open spec fn element_id_s(e: ElementModel) -> Option<Seq<char>> {
    match find_attr(e.attrs, "id"@, 0) {
        Some(a) => match a.value {
            ValueModel::Str(s) => if blank(s) {
                None
            } else {
                Some(s)
            },
            _ => None,
        },
        None => None,
    }
}

/// An element is named by a `<label for=…>` of the tree when its `id` is
/// among the tree's label targets `labels`.
pub open spec fn labelled_s(e: ElementModel, labels: Seq<Seq<char>>) -> bool {
    element_id_s(e) matches Some(id) && labels.contains(id)
}

/// An accessible name: `aria-label`, `aria-labelledby` or `title` that is not
/// blank, text below, or a `<label for=…>` of the tree that points at the
/// element's `id`.
pub open spec fn has_accessible_name_s(e: ElementModel, labels: Seq<Seq<char>>) -> bool {
    non_empty_attr_s(e.attrs, "aria-label"@) || non_empty_attr_s(e.attrs, "aria-labelledby"@)
        || non_empty_attr_s(e.attrs, "title"@) || list_has_text_s(e.children) || labelled_s(e, labels)
}

/// The target of a `label` element: the string of its first `for` attribute.
pub open spec fn label_target_s(e: ElementModel) -> Seq<Seq<char>> {
    if e.tag == "label"@ {
        match find_attr(e.attrs, "for"@, 0) {
            Some(a) => match a.value {
                ValueModel::Str(s) => seq![s],
                _ => Seq::empty(),
            },
            None => Seq::empty(),
        }
    } else {
        Seq::empty()
    }
}

/// The targets of the `label` elements of a tree, in pre-order.
pub open spec fn label_ids_s(n: NodeModel) -> Seq<Seq<char>>
    decreases n,
{
    match n {
        NodeModel::Element(e) => label_target_s(e) + label_ids_list_s(e.children),
        NodeModel::Fragment(c) => label_ids_list_s(c),
        NodeModel::Component(c) => label_ids_s(*c.rendered),
        _ => Seq::empty(),
    }
}

pub open spec fn label_ids_list_s(s: Seq<NodeModel>) -> Seq<Seq<char>>
    decreases s,
{
    if s.len() == 0 {
        Seq::empty()
    } else {
        label_ids_list_s(s.drop_last()) + label_ids_s(s.last())
    }
}

fn node_has_text(node: &VNode) -> (r: bool)
    ensures
        r == node_has_text_s(node@),
    decreases node,
{
    match node {
        VNode::Text(t) => {
            let b = is_blank(t.as_str());
            assert(node@ == NodeModel::Text(t@));
            assert(node_has_text_s(node@) == !blank(t@));
            !b
        },
        VNode::Element(e) => {
            if e.children.len() > 0 && list_has_text(&e.children) {
                return true;
            }
            (str_eq(e.tag.as_str(), "img") || str_eq(e.tag.as_str(), "input")) && (non_empty_attr(e, "alt")
                || non_empty_attr(e, "aria-label"))
        },
        VNode::Fragment(c) => list_has_text(c),
        VNode::Component(c) => node_has_text(&c.rendered),
        VNode::Empty => false,
    }
}

fn list_has_text(s: &Vec<VNode>) -> (r: bool)
    ensures
        r == list_has_text_s(nodes_model(s@)),
    decreases s,
{
    let ghost m = nodes_model(s@);
    for i in 0..s.len()
        invariant
            m == nodes_model(s@),
            !list_has_text_s(m.take(i as int)),
    {
        assert(m.take(i + 1).drop_last() =~= m.take(i as int));
        if node_has_text(&s[i]) {
            proof {
                lemma_list_has_text_prefix(m, i + 1);
            }
            return true;
        }
    }
    assert(m.take(m.len() as int) =~= m);
    false
}

proof fn lemma_list_has_text_prefix(s: Seq<NodeModel>, i: int)
    requires
        0 <= i <= s.len(),
        list_has_text_s(s.take(i)),
    ensures
        list_has_text_s(s),
    decreases s.len(),
{
    if i < s.len() {
        assert(s.drop_last().take(i) =~= s.take(i));
        lemma_list_has_text_prefix(s.drop_last(), i);
    } else {
        assert(s.take(i) =~= s);
    }
}

fn element_id(el: &Element) -> (r: Option<&String>)
    ensures
        match element_id_s(el@) {
            Some(v) => r matches Some(x) && x@ == v,
            None => r is None,
        },
{
    match find_attr_exec(el, "id") {
        Some(a) => match &a.value {
            AttrValue::String(s) => {
                if is_blank(s.as_str()) {
                    None
                } else {
                    Some(s)
                }
            },
            _ => None,
        },
        None => None,
    }
}

fn contains_str(v: &Vec<String>, s: &str) -> (r: bool)
    ensures
        r == strs(v@).contains(s@),
{
    let ghost vs = strs(v@);
    for i in 0..v.len()
        invariant
            vs == strs(v@),
            forall|j: int| 0 <= j < i ==> vs[j] != s@,
    {
        if str_eq(v[i].as_str(), s) {
            assert(vs[i as int] == s@);
            return true;
        }
    }
    false
}

fn has_accessible_name(el: &Element, labels: &Vec<String>) -> (r: bool)
    ensures
        r == has_accessible_name_s(el@, strs(labels@)),
{
    if non_empty_attr(el, "aria-label") || non_empty_attr(el, "aria-labelledby") || non_empty_attr(el, "title")
        || list_has_text(&el.children) {
        return true;
    }
    match element_id(el) {
        Some(id) => contains_str(labels, id.as_str()),
        None => false,
    }
}

fn push_label_target(el: &Element, out: &mut Vec<String>)
    ensures
        strs(final(out)@) == strs(old(out)@) + label_target_s(el@),
{
    let ghost o = strs(out@);
    if str_eq(el.tag.as_str(), "label") {
        match find_attr_exec(el, "for") {
            Some(a) => match &a.value {
                AttrValue::String(s) => {
                    out.push(s.clone());
                    assert(strs(out@) =~= o + label_target_s(el@));
                    return;
                },
                _ => {},
            },
            None => {},
        }
    }
    assert(strs(out@) =~= o + label_target_s(el@));
}

fn collect_labels(node: &VNode, out: &mut Vec<String>)
    ensures
        strs(final(out)@) == strs(old(out)@) + label_ids_s(node@),
    decreases node,
{
    let ghost o = strs(out@);
    match node {
        VNode::Element(el) => {
            assert(node@ == NodeModel::Element(el@));
            push_label_target(el, out);
            collect_label_list(&el.children, out);
            assert(strs(out@) =~= o + label_ids_s(node@));
        },
        VNode::Fragment(c) => {
            collect_label_list(c, out);
        },
        VNode::Component(c) => {
            collect_labels(&c.rendered, out);
        },
        _ => {
            assert(strs(out@) =~= o + label_ids_s(node@));
        },
    }
}

fn collect_label_list(s: &Vec<VNode>, out: &mut Vec<String>)
    ensures
        strs(final(out)@) == strs(old(out)@) + label_ids_list_s(nodes_model(s@)),
    decreases s,
{
    let ghost m = nodes_model(s@);
    let ghost o = strs(out@);
    assert(o =~= o + label_ids_list_s(m.take(0)));
    for i in 0..s.len()
        invariant
            m == nodes_model(s@),
            strs(out@) == o + label_ids_list_s(m.take(i as int)),
    {
        assert(m.take(i + 1).drop_last() =~= m.take(i as int));
        collect_labels(&s[i], out);
        assert(strs(out@) =~= o + label_ids_list_s(m.take(i + 1)));
    }
    assert(m.take(m.len() as int) =~= m);
}

/// Roles of interactive widgets.
pub open spec fn interactive_role(r: Seq<char>) -> bool {
    ||| r == "button"@ || r == "link"@ || r == "textbox"@ || r == "searchbox"@ || r == "checkbox"@
    ||| r == "radio"@ || r == "switch"@ || r == "tab"@ || r == "menuitem"@ || r == "option"@
    ||| r == "combobox"@ || r == "slider"@ || r == "menuitemcheckbox"@ || r == "menuitemradio"@
}

pub open spec fn is_interactive_s(e: ElementModel) -> bool {
    if e.tag == "button"@ || e.tag == "summary"@ {
        true
    } else if e.tag == "a"@ && has_attr_s(e.attrs, "href"@) {
        true
    } else if e.tag == "details"@ {
        false
    } else {
        role_s(e) matches Some(r) && interactive_role(r)
    }
}

fn is_interactive(el: &Element) -> (r: bool)
    ensures
        r == is_interactive_s(el@),
{
    let tag = el.tag.as_str();
    if str_eq(tag, "button") || str_eq(tag, "summary") {
        return true;
    }
    if str_eq(tag, "a") && has_attr(el, "href") {
        return true;
    }
    if str_eq(tag, "details") {
        return false;
    }
    match role(el) {
        Some(r) => {
            let r = r.as_str();
            str_eq(r, "button") || str_eq(r, "link") || str_eq(r, "textbox") || str_eq(r, "searchbox")
                || str_eq(r, "checkbox") || str_eq(r, "radio") || str_eq(r, "switch") || str_eq(r, "tab")
                || str_eq(r, "menuitem") || str_eq(r, "option") || str_eq(r, "combobox") || str_eq(
                r,
                "slider",
            ) || str_eq(r, "menuitemcheckbox") || str_eq(r, "menuitemradio")
        },
        None => false,
    }
}

/// The first attribute named `name` at or after `i`.
pub open spec fn find_attr(attrs: Seq<AttrModel>, name: Seq<char>, i: int) -> Option<AttrModel>
    decreases attrs.len() - i,
{
    if i < 0 || i >= attrs.len() {
        None
    } else if attrs[i].name == name {
        Some(attrs[i])
    } else {
        find_attr(attrs, name, i + 1)
    }
}

pub open spec fn non_control_type(t: Seq<char>) -> bool {
    t == "hidden"@ || t == "button"@ || t == "submit"@ || t == "reset"@ || t == "image"@
}

pub open spec fn is_form_control_s(e: ElementModel) -> bool {
    if e.tag == "textarea"@ || e.tag == "select"@ {
        true
    } else if e.tag == "input"@ {
        match find_attr(e.attrs, "type"@, 0) {
            Some(a) => match a.value {
                ValueModel::Str(t) => !non_control_type(t),
                _ => true,
            },
            None => true,
        }
    } else {
        false
    }
}

fn find_attr_exec<'a>(el: &'a Element, name: &str) -> (r: Option<&'a Attr>)
    ensures
        match find_attr(el@.attrs, name@, 0) {
            Some(a) => r matches Some(x) && x@ == a,
            None => r is None,
        },
{
    let ghost am = attrs_model(el.attrs@);
    for i in 0..el.attrs.len()
        invariant
            am == attrs_model(el.attrs@),
            am == el@.attrs,
            find_attr(am, name@, 0) == find_attr(am, name@, i as int),
    {
        if str_eq(el.attrs[i].name.as_str(), name) {
            return Some(&el.attrs[i]);
        }
    }
    None
}

fn is_form_control(el: &Element) -> (r: bool)
    ensures
        r == is_form_control_s(el@),
{
    let tag = el.tag.as_str();
    if str_eq(tag, "textarea") || str_eq(tag, "select") {
        return true;
    }
    if str_eq(tag, "input") {
        match find_attr_exec(el, "type") {
            Some(a) => match &a.value {
                AttrValue::String(t) => {
                    let t = t.as_str();
                    return !(str_eq(t, "hidden") || str_eq(t, "button") || str_eq(t, "submit") || str_eq(
                        t,
                        "reset",
                    ) || str_eq(t, "image"));
                },
                _ => {
                    return true;
                },
            },
            None => {
                return true;
            },
        }
    }
    false
}

pub open spec fn is_image_s(e: ElementModel) -> bool {
    e.tag == "img"@ || role_s(e) == Some("img"@)
}

fn is_image(el: &Element) -> (r: bool)
    ensures
        r == is_image_s(el@),
{
    str_eq(el.tag.as_str(), "img") || role_is(el, "img")
}

pub open spec fn heading_level_s(tag: Seq<char>) -> Option<u8> {
    if tag == "h1"@ {
        Some(1)
    } else if tag == "h2"@ {
        Some(2)
    } else if tag == "h3"@ {
        Some(3)
    } else if tag == "h4"@ {
        Some(4)
    } else if tag == "h5"@ {
        Some(5)
    } else if tag == "h6"@ {
        Some(6)
    } else {
        None
    }
}

fn heading_level(tag: &str) -> (r: Option<u8>)
    ensures
        r == heading_level_s(tag@),
{
    if str_eq(tag, "h1") {
        Some(1)
    } else if str_eq(tag, "h2") {
        Some(2)
    } else if str_eq(tag, "h3") {
        Some(3)
    } else if str_eq(tag, "h4") {
        Some(4)
    } else if str_eq(tag, "h5") {
        Some(5)
    } else if str_eq(tag, "h6") {
        Some(6)
    } else {
        None
    }
}

// ---------------------------------------------------------------------------
// Violations and reports
// ---------------------------------------------------------------------------

/// One broken rule, where it was found, and how to fix it.
#[derive(Debug, Clone, PartialEq, Eq)]
pub struct A11yViolation {
    pub path: String,
    pub rule: &'static str,
    pub severity: Severity,
    pub message: String,
    pub fix_hint: String,
}

pub struct ViolationModel {
    pub path: Seq<char>,
    pub rule: Seq<char>,
    pub severity: Severity,
    pub message: Seq<char>,
    pub fix_hint: Seq<char>,
}

impl View for A11yViolation {
    type V = ViolationModel;

    open spec fn view(&self) -> ViolationModel {
        ViolationModel {
            path: self.path@,
            rule: self.rule@,
            severity: self.severity,
            message: self.message@,
            fix_hint: self.fix_hint@,
        }
    }
}

pub open spec fn violations_model(s: Seq<A11yViolation>) -> Seq<ViolationModel> {
    s.map_values(|v: A11yViolation| v@)
}

/// `[SEVERITY] RULE at `PATH`: MESSAGE (fix: HINT)`.
pub open spec fn violation_text(v: ViolationModel) -> Seq<char> {
    "["@ + severity_text(v.severity) + "] "@ + v.rule + " at `"@ + v.path + "`: "@ + v.message + " (fix: "@
        + v.fix_hint + ")"@
}

/// The texts of violations, one per line.
pub open spec fn violations_text(s: Seq<ViolationModel>) -> Seq<char>
    decreases s.len(),
{
    if s.len() == 0 {
        Seq::empty()
    } else if s.len() == 1 {
        violation_text(s[0])
    } else {
        violations_text(s.drop_last()) + "\n"@ + violation_text(s.last())
    }
}

impl A11yViolation {
    /// The violation as one line of text.
    pub fn to_text(&self) -> (r: String)
        ensures
            r@ == violation_text(self@),
    {
        let mut s = String::new();
        s.append("[");
        s.append(self.severity.text());
        s.append("] ");
        s.append(self.rule);
        s.append(" at `");
        s.append(self.path.as_str());
        s.append("`: ");
        s.append(self.message.as_str());
        s.append(" (fix: ");
        s.append(self.fix_hint.as_str());
        s.append(")");
        assert(s@ =~= violation_text(self@));
        s
    }
}

/// The violations a check found, in the order it found them.
#[derive(Debug, Clone, PartialEq, Eq)]
pub struct A11yReport {
    pub violations: Vec<A11yViolation>,
}

impl Default for A11yReport {
    fn default() -> (r: Self)
        ensures
            r.violations@.len() == 0,
    {
        A11yReport { violations: Vec::new() }
    }
}

impl A11yReport {
    /// No violation was found.
    pub fn is_clean(&self) -> (r: bool)
        ensures
            r == (self.violations@.len() == 0),
    {
        self.violations.len() == 0
    }

    /// Some violation is more than minor.
    pub fn has_blocking(&self) -> (r: bool)
        ensures
            r == exists|i: int|
                0 <= i < self.violations@.len() && (#[trigger] self.violations@[i]).severity != Severity::Minor,
    {
        for i in 0..self.violations.len()
            invariant
                forall|j: int| 0 <= j < i ==> (#[trigger] self.violations@[j]).severity == Severity::Minor,
        {
            if self.violations[i].severity != Severity::Minor {
                return true;
            }
        }
        false
    }

    /// The violations of one severity, in order.
    pub fn of_severity(&self, severity: Severity) -> (r: Vec<&A11yViolation>)
        ensures
            r@.map_values(|v: &A11yViolation| *v) == self.violations@.filter(|v: A11yViolation| v.severity == severity),
    {
        let ghost pred = |v: A11yViolation| v.severity == severity;
        let mut out: Vec<&A11yViolation> = Vec::new();
        for i in 0..self.violations.len()
            invariant
                pred == (|v: A11yViolation| v.severity == severity),
                out@.map_values(|v: &A11yViolation| *v) == self.violations@.take(i as int).filter(pred),
        {
            proof {
                reveal(Seq::filter);
                assert(self.violations@.take(i + 1).drop_last() =~= self.violations@.take(i as int));
            }
            if self.violations[i].severity == severity {
                out.push(&self.violations[i]);
            }
            assert(out@.map_values(|v: &A11yViolation| *v) =~= self.violations@.take(i + 1).filter(pred));
        }
        assert(self.violations@.take(self.violations@.len() as int) =~= self.violations@);
        out
    }

    /// `0 a11y violations`, or the violations one per line.
    pub fn to_text(&self) -> (r: String)
        ensures
            r@ == if self.violations@.len() == 0 {
                "0 a11y violations"@
            } else {
                violations_text(violations_model(self.violations@))
            },
    {
        if self.violations.len() == 0 {
            return "0 a11y violations".to_owned();
        }
        let ghost vm = violations_model(self.violations@);
        let mut s = String::new();
        for i in 0..self.violations.len()
            invariant
                vm == violations_model(self.violations@),
                s@ == violations_text(vm.take(i as int)),
        {
            if i > 0 {
                s.append("\n");
            }
            let t = self.violations[i].to_text();
            s.append(t.as_str());
            assert(vm.take(i + 1).drop_last() =~= vm.take(i as int));
            assert(s@ =~= violations_text(vm.take(i + 1)));
        }
        assert(vm.take(vm.len() as int) =~= vm);
        s
    }
}

// ---------------------------------------------------------------------------
// Walking the tree
// ---------------------------------------------------------------------------

/// What a walk has found so far.
pub struct WalkState {
    pub violations: Seq<ViolationModel>,
    pub heading_prev: Option<u8>,
    pub saw_main: bool,
    /// The targets of the tree's `<label for=…>` elements.
    pub labels: Seq<Seq<char>>,
}

/// The path segments joined with ` > `.
pub open spec fn path_text(p: Seq<Seq<char>>) -> Seq<char>
    decreases p.len(),
{
    if p.len() == 0 {
        Seq::empty()
    } else if p.len() == 1 {
        p[0]
    } else {
        path_text(p.drop_last()) + " > "@ + p.last()
    }
}

pub open spec fn report_s(st: WalkState, path: Seq<Seq<char>>, rule: Seq<char>, sev: Severity, msg: Seq<char>, fix: Seq<char>) -> WalkState {
    WalkState {
        violations: st.violations.push(
            ViolationModel { path: path_text(path), rule: rule, severity: sev, message: msg, fix_hint: fix },
        ),
        ..st
    }
}

/// How a violation names an element.
pub open spec fn label_for_s(e: ElementModel) -> Seq<char> {
    match find_attr(e.attrs, "aria-label"@, 0) {
        Some(a) if a.value is Str => "<"@ + e.tag + " aria-label=\""@ + a.value->Str_0 + "\">"@,
        _ => match e.key {
            Some(k) => "<"@ + e.tag + " #"@ + k + ">"@,
            None => "<"@ + e.tag + ">"@,
        },
    }
}

/// The rules checked on each element: heading order, image text, form
/// labels and names of interactive elements.
pub open spec fn lint_element_s(e: ElementModel, path: Seq<Seq<char>>, st: WalkState) -> WalkState {
    let st1 = match heading_level_s(e.tag) {
        Some(level) => {
            let sh = match st.heading_prev {
                Some(prev) => if (level as u16) > (prev as u16) + 1 {
                    report_s(
                        st,
                        path,
                        "heading-order"@,
                        Severity::Moderate,
                        "heading skips a level: h"@ + decimal(prev as nat) + " -> h"@ + decimal(level as nat),
                        "use a contiguous heading level (e.g. h2 after h1, not h3)"@,
                    )
                } else {
                    st
                },
                None => st,
            };
            WalkState { heading_prev: Some(level), ..sh }
        },
        None => st,
    };
    let st2 = if is_image_s(e) && !has_attr_s(e.attrs, "alt"@) && !non_empty_attr_s(e.attrs, "aria-label"@)
        && !non_empty_attr_s(e.attrs, "aria-labelledby"@) {
        report_s(
            st1,
            path,
            "image-alt"@,
            Severity::Serious,
            "image `"@ + label_for_s(e) + "` has no alt text"@,
            "add alt=\"…\" for meaningful images or alt=\"\" for decorative"@,
        )
    } else {
        st1
    };
    if is_form_control_s(e) && !has_accessible_name_s(e, st.labels) {
        report_s(
            st2,
            path,
            "form-label"@,
            Severity::Serious,
            "form control `"@ + label_for_s(e) + "` has no accessible name"@,
            "associate a <label>, or set aria-label/aria-labelledby"@,
        )
    } else if is_interactive_s(e) && !is_image_s(e) && !has_accessible_name_s(e, st.labels) {
        report_s(
            st2,
            path,
            "interactive-name"@,
            Severity::Serious,
            "interactive element `"@ + label_for_s(e) + "` has no accessible name"@,
            "add content text, aria-label, aria-labelledby, or title"@,
        )
    } else {
        st2
    }
}

/// The list rule for one child of a `ul` or `ol` with tag `tag`.
pub open spec fn lint_list_item_s(tag: Seq<char>, c: NodeModel, path: Seq<Seq<char>>, st: WalkState) -> WalkState {
    match c {
        NodeModel::Text(t) => if blank(t) {
            st
        } else {
            report_s(
                st,
                path,
                "list-structure"@,
                Severity::Moderate,
                "`<"@ + tag + ">` contains raw text `"@ + debug_repr(t) + "`"@,
                "wrap list text in `<li>`"@,
            )
        },
        NodeModel::Element(ce) => if ce.tag != "li"@ && role_s(ce) != Some("listitem"@) {
            report_s(
                st,
                path,
                "list-structure"@,
                Severity::Moderate,
                "`<"@ + tag + ">` contains `<"@ + ce.tag + ">`, not `<li>`"@,
                "children of a list must be `<li>` or role=\"listitem\""@,
            )
        } else {
            st
        },
        _ => st,
    }
}

/// The list rule over the first `i` children.
pub open spec fn lint_list_s(tag: Seq<char>, kids: Seq<NodeModel>, i: int, path: Seq<Seq<char>>, st: WalkState) -> WalkState
    decreases i,
{
    if i <= 0 || i > kids.len() {
        st
    } else {
        lint_list_item_s(tag, kids[i - 1], path, lint_list_s(tag, kids, i - 1, path, st))
    }
}

/// The path segment of an element: its tag, and its role in brackets.
pub open spec fn segment_s(e: ElementModel) -> Seq<char> {
    match role_s(e) {
        Some(r) => e.tag + "[role="@ + r + "]"@,
        None => e.tag,
    }
}

/// Checks a tree in pre-order.
pub open spec fn walk_s(n: NodeModel, path: Seq<Seq<char>>, st: WalkState) -> WalkState
    decreases n,
{
    match n {
        NodeModel::Fragment(c) => walk_list_s(c, path, st),
        NodeModel::Component(c) => walk_s(*c.rendered, path.push("<"@ + c.name + ">"@), st),
        NodeModel::Element(e) => {
            let st1 = if e.tag == "main"@ || role_s(e) == Some("main"@) {
                WalkState { saw_main: true, ..st }
            } else {
                st
            };
            let p2 = path.push(segment_s(e));
            let st2 = lint_element_s(e, p2, st1);
            let st3 = if e.tag == "ul"@ || e.tag == "ol"@ {
                lint_list_s(e.tag, e.children, e.children.len() as int, p2, st2)
            } else {
                st2
            };
            walk_list_s(e.children, p2, st3)
        },
        _ => st,
    }
}

pub open spec fn walk_list_s(s: Seq<NodeModel>, path: Seq<Seq<char>>, st: WalkState) -> WalkState
    decreases s,
{
    if s.len() == 0 {
        st
    } else {
        walk_s(s.last(), path, walk_list_s(s.drop_last(), path, st))
    }
}

/// The violation for a document without a main landmark.
pub open spec fn no_main_violation() -> ViolationModel {
    ViolationModel {
        path: "document"@,
        rule: "landmark-main"@,
        severity: Severity::Minor,
        message: "document has no <main> or role=\"main\" landmark"@,
        fix_hint: "wrap the primary content in <main aria-label=\"…\">"@,
    }
}

/// What `check` reports for a tree.
pub open spec fn check_s(n: NodeModel) -> Seq<ViolationModel> {
    let st = walk_s(
        n,
        Seq::empty(),
        WalkState { violations: Seq::empty(), heading_prev: None, saw_main: false, labels: label_ids_s(n) },
    );
    if st.saw_main {
        st.violations
    } else {
        st.violations.push(no_main_violation())
    }
}

struct Ctx {
    violations: Vec<A11yViolation>,
    heading_prev: Option<u8>,
    saw_main: bool,
    labels: Vec<String>,
}

impl View for Ctx {
    type V = WalkState;

    closed spec fn view(&self) -> WalkState {
        WalkState {
            violations: violations_model(self.violations@),
            heading_prev: self.heading_prev,
            saw_main: self.saw_main,
            labels: strs(self.labels@),
        }
    }
}

pub open spec fn strs(v: Seq<String>) -> Seq<Seq<char>> {
    v.map_values(|x: String| x@)
}

fn path_string(path: &Vec<String>) -> (r: String)
    ensures
        r@ == path_text(strs(path@)),
{
    let ghost ps = strs(path@);
    let mut s = String::new();
    for i in 0..path.len()
        invariant
            ps == strs(path@),
            s@ == path_text(ps.take(i as int)),
    {
        if i > 0 {
            s.append(" > ");
        }
        s.append(path[i].as_str());
        assert(ps.take(i + 1).drop_last() =~= ps.take(i as int));
        assert(s@ =~= path_text(ps.take(i + 1)));
    }
    assert(ps.take(ps.len() as int) =~= ps);
    s
}

impl Ctx {
    fn report(&mut self, path: &Vec<String>, rule: &'static str, severity: Severity, message: String, fix_hint: String)
        ensures
            final(self)@ == report_s(old(self)@, strs(path@), rule@, severity, message@, fix_hint@),
    {
        let v = A11yViolation { path: path_string(path), rule, severity, message, fix_hint };
        let ghost before = self.violations@;
        self.violations.push(v);
        assert(violations_model(self.violations@) =~= violations_model(before).push(v@));
    }
}

fn label_for(el: &Element) -> (r: String)
    ensures
        r@ == label_for_s(el@),
{
    match find_attr_exec(el, "aria-label") {
        Some(a) => match &a.value {
            AttrValue::String(s) => {
                let mut out = "<".to_owned();
                out.append(el.tag.as_str());
                out.append(" aria-label=\"");
                out.append(s.as_str());
                out.append("\">");
                return out;
            },
            _ => {},
        },
        None => {},
    }
    match &el.key {
        Some(k) => {
            let mut out = "<".to_owned();
            out.append(el.tag.as_str());
            out.append(" #");
            out.append(k.as_str());
            out.append(">");
            out
        },
        None => {
            let mut out = "<".to_owned();
            out.append(el.tag.as_str());
            out.append(">");
            out
        },
    }
}

fn lint_element(el: &Element, path: &Vec<String>, ctx: &mut Ctx)
    ensures
        final(ctx)@ == lint_element_s(el@, strs(path@), old(ctx)@),
{
    match heading_level(el.tag.as_str()) {
        Some(level) => {
            match ctx.heading_prev {
                Some(prev) => {
                    if (level as u16) > (prev as u16) + 1 {
                        let mut msg = "heading skips a level: h".to_owned();
                        push_decimal(&mut msg, prev as u64);
                        msg.append(" -> h");
                        push_decimal(&mut msg, level as u64);
                        ctx.report(
                            path,
                            "heading-order",
                            Severity::Moderate,
                            msg,
                            "use a contiguous heading level (e.g. h2 after h1, not h3)".to_owned(),
                        );
                    }
                },
                None => {},
            }
            ctx.heading_prev = Some(level);
        },
        None => {},
    }
    if is_image(el) && !has_attr(el, "alt") && !non_empty_attr(el, "aria-label") && !non_empty_attr(
        el,
        "aria-labelledby",
    ) {
        let mut msg = "image `".to_owned();
        msg.append(label_for(el).as_str());
        msg.append("` has no alt text");
        ctx.report(
            path,
            "image-alt",
            Severity::Serious,
            msg,
            "add alt=\"…\" for meaningful images or alt=\"\" for decorative".to_owned(),
        );
    }
    if is_form_control(el) && !has_accessible_name(el, &ctx.labels) {
        let mut msg = "form control `".to_owned();
        msg.append(label_for(el).as_str());
        msg.append("` has no accessible name");
        ctx.report(
            path,
            "form-label",
            Severity::Serious,
            msg,
            "associate a <label>, or set aria-label/aria-labelledby".to_owned(),
        );
    } else if is_interactive(el) && !is_image(el) && !has_accessible_name(el, &ctx.labels) {
        let mut msg = "interactive element `".to_owned();
        msg.append(label_for(el).as_str());
        msg.append("` has no accessible name");
        ctx.report(
            path,
            "interactive-name",
            Severity::Serious,
            msg,
            "add content text, aria-label, aria-labelledby, or title".to_owned(),
        );
    }
}

fn lint_list(el: &Element, path: &Vec<String>, ctx: &mut Ctx)
    ensures
        final(ctx)@ == lint_list_s(el@.tag, el@.children, el@.children.len() as int, strs(path@), old(ctx)@),
{
    let ghost kids = nodes_model(el.children@);
    assert(kids == el@.children);
    for i in 0..el.children.len()
        invariant
            kids == nodes_model(el.children@),
            kids == el@.children,
            ctx@ == lint_list_s(el@.tag, kids, i as int, strs(path@), old(ctx)@),
    {
        match &el.children[i] {
            VNode::Text(t) => {
                if !is_blank(t.as_str()) {
                    let mut msg = "`<".to_owned();
                    msg.append(el.tag.as_str());
                    msg.append(">` contains raw text `");
                    msg.append(debug_str(t.as_str()).as_str());
                    msg.append("`");
                    ctx.report(path, "list-structure", Severity::Moderate, msg, "wrap list text in `<li>`".to_owned());
                }
            },
            VNode::Element(c) => {
                if !str_eq(c.tag.as_str(), "li") && !role_is(c, "listitem") {
                    let mut msg = "`<".to_owned();
                    msg.append(el.tag.as_str());
                    msg.append(">` contains `<");
                    msg.append(c.tag.as_str());
                    msg.append(">`, not `<li>`");
                    ctx.report(
                        path,
                        "list-structure",
                        Severity::Moderate,
                        msg,
                        "children of a list must be `<li>` or role=\"listitem\"".to_owned(),
                    );
                }
            },
            _ => {},
        }
    }
}

fn segment(el: &Element) -> (r: String)
    ensures
        r@ == segment_s(el@),
{
    let mut seg = el.tag.clone();
    match role(el) {
        Some(r) => {
            seg.append("[role=");
            seg.append(r.as_str());
            seg.append("]");
        },
        None => {},
    }
    seg
}

fn walk(node: &VNode, path: &mut Vec<String>, ctx: &mut Ctx)
    ensures
        final(path)@ == old(path)@,
        final(ctx)@ == walk_s(node@, strs(old(path)@), old(ctx)@),
    decreases node,
{
    match node {
        VNode::Fragment(children) => {
            walk_children(children, path, ctx);
        },
        VNode::Component(c) => {
            let mut seg = "<".to_owned();
            seg.append(c.name.as_str());
            seg.append(">");
            let ghost p0 = path@;
            path.push(seg);
            assert(strs(path@) =~= strs(p0).push("<"@ + c.name@ + ">"@));
            walk(&c.rendered, path, ctx);
            path.pop();
            assert(path@ =~= p0);
        },
        VNode::Element(el) => {
            assert(node@ == NodeModel::Element(el@));
            if str_eq(el.tag.as_str(), "main") || role_is(el, "main") {
                ctx.saw_main = true;
            }
            let ghost p0 = path@;
            let seg = segment(el);
            path.push(seg);
            assert(strs(path@) =~= strs(p0).push(segment_s(el@)));
            lint_element(el, path, ctx);
            if str_eq(el.tag.as_str(), "ul") || str_eq(el.tag.as_str(), "ol") {
                lint_list(el, path, ctx);
            }
            walk_children(&el.children, path, ctx);
            path.pop();
            assert(path@ =~= p0);
        },
        _ => {},
    }
}

fn walk_children(children: &Vec<VNode>, path: &mut Vec<String>, ctx: &mut Ctx)
    ensures
        final(path)@ == old(path)@,
        final(ctx)@ == walk_list_s(nodes_model(children@), strs(old(path)@), old(ctx)@),
    decreases children,
{
    let ghost m = nodes_model(children@);
    let ghost p0 = path@;
    for i in 0..children.len()
        invariant
            m == nodes_model(children@),
            path@ == p0,
            ctx@ == walk_list_s(m.take(i as int), strs(p0), old(ctx)@),
    {
        assert(m.take(i + 1).drop_last() =~= m.take(i as int));
        walk(&children[i], path, ctx);
    }
    assert(m.take(m.len() as int) =~= m);
}

/// Checks a tree against the accessibility rules: heading order, image
/// text, form labels, names of interactive elements, list structure, and
/// (once, at the end, as a minor issue) a main landmark.
pub fn check(root: &VNode) -> (r: A11yReport)
    ensures
        violations_model(r.violations@) == check_s(root@),
{
    let mut labels: Vec<String> = Vec::new();
    collect_labels(root, &mut labels);
    assert(strs(labels@) =~= label_ids_s(root@));
    let mut ctx = Ctx { violations: Vec::new(), heading_prev: None, saw_main: false, labels };
    let mut path: Vec<String> = Vec::new();
    assert(violations_model(ctx.violations@) =~= Seq::<ViolationModel>::empty());
    assert(ctx@ == WalkState {
        violations: Seq::empty(),
        heading_prev: None,
        saw_main: false,
        labels: label_ids_s(root@),
    });
    assert(strs(path@) =~= Seq::<Seq<char>>::empty());
    walk(root, &mut path, &mut ctx);
    if !ctx.saw_main {
        let v = A11yViolation {
            path: "document".to_owned(),
            rule: "landmark-main",
            severity: Severity::Minor,
            message: "document has no <main> or role=\"main\" landmark".to_owned(),
            fix_hint: "wrap the primary content in <main aria-label=\"…\">".to_owned(),
        };
        let ghost before = ctx.violations@;
        ctx.violations.push(v);
        assert(violations_model(ctx.violations@) =~= violations_model(before).push(v@));
    }
    A11yReport { violations: ctx.violations }
}

// ---------------------------------------------------------------------------
// Heading order
// ---------------------------------------------------------------------------

/// The level of the last heading of `n` in pre-order, if it has one.
pub open spec fn last_heading(n: NodeModel) -> Option<u8>
    decreases n,
{
    match n {
        NodeModel::Element(e) => match last_heading_list(e.children) {
            Some(l) => Some(l),
            None => heading_level_s(e.tag),
        },
        NodeModel::Fragment(c) => last_heading_list(c),
        NodeModel::Component(c) => last_heading(*c.rendered),
        _ => None,
    }
}

/// The level of the last heading of the siblings `s` in pre-order.
pub open spec fn last_heading_list(s: Seq<NodeModel>) -> Option<u8>
    decreases s,
{
    if s.len() == 0 {
        None
    } else {
        match last_heading(s.last()) {
            Some(l) => Some(l),
            None => last_heading_list(s.drop_last()),
        }
    }
}

/// `b` holds the violations of `a` first, in order.
pub open spec fn keeps_found(a: Seq<ViolationModel>, b: Seq<ViolationModel>) -> bool {
    a.len() <= b.len() && b.take(a.len() as int) == a
}

proof fn lemma_keeps_report(st: WalkState, path: Seq<Seq<char>>, rule: Seq<char>, sev: Severity, msg: Seq<char>, fix: Seq<char>, a: Seq<ViolationModel>)
    requires
        keeps_found(a, st.violations),
    ensures
        keeps_found(a, report_s(st, path, rule, sev, msg, fix).violations),
        report_s(st, path, rule, sev, msg, fix).heading_prev == st.heading_prev,
{
    let v = report_s(st, path, rule, sev, msg, fix).violations;
    assert(v.take(a.len() as int) =~= st.violations.take(a.len() as int));
}

proof fn lemma_lint_element_keeps(e: ElementModel, path: Seq<Seq<char>>, st: WalkState)
    ensures
        keeps_found(st.violations, lint_element_s(e, path, st).violations),
        lint_element_s(e, path, st).heading_prev == match heading_level_s(e.tag) {
            Some(l) => Some(l),
            None => st.heading_prev,
        },
{
    let a = st.violations;
    assert(st.violations.take(a.len() as int) =~= a);
    let st1 = match heading_level_s(e.tag) {
        Some(level) => {
            let sh = match st.heading_prev {
                Some(prev) => if (level as u16) > (prev as u16) + 1 {
                    report_s(
                        st,
                        path,
                        "heading-order"@,
                        Severity::Moderate,
                        "heading skips a level: h"@ + decimal(prev as nat) + " -> h"@ + decimal(level as nat),
                        "use a contiguous heading level (e.g. h2 after h1, not h3)"@,
                    )
                } else {
                    st
                },
                None => st,
            };
            WalkState { heading_prev: Some(level), ..sh }
        },
        None => st,
    };
    lemma_keeps_report(st, path, "heading-order"@, Severity::Moderate,
        "heading skips a level: h"@ + decimal(st.heading_prev->0 as nat) + " -> h"@ + decimal(heading_level_s(e.tag)->0 as nat),
        "use a contiguous heading level (e.g. h2 after h1, not h3)"@, a);
    assert(keeps_found(a, st1.violations));
    let st2 = if is_image_s(e) && !has_attr_s(e.attrs, "alt"@) && !non_empty_attr_s(e.attrs, "aria-label"@)
        && !non_empty_attr_s(e.attrs, "aria-labelledby"@) {
        report_s(
            st1,
            path,
            "image-alt"@,
            Severity::Serious,
            "image `"@ + label_for_s(e) + "` has no alt text"@,
            "add alt=\"…\" for meaningful images or alt=\"\" for decorative"@,
        )
    } else {
        st1
    };
    lemma_keeps_report(st1, path, "image-alt"@, Severity::Serious,
        "image `"@ + label_for_s(e) + "` has no alt text"@,
        "add alt=\"…\" for meaningful images or alt=\"\" for decorative"@, a);
    assert(keeps_found(a, st2.violations));
    lemma_keeps_report(st2, path, "form-label"@, Severity::Serious,
        "form control `"@ + label_for_s(e) + "` has no accessible name"@,
        "associate a <label>, or set aria-label/aria-labelledby"@, a);
    lemma_keeps_report(st2, path, "interactive-name"@, Severity::Serious,
        "interactive element `"@ + label_for_s(e) + "` has no accessible name"@,
        "add content text, aria-label, aria-labelledby, or title"@, a);
}

/// A heading of level `level` met after a heading of level `prev` is
/// reported as a `heading-order` violation, the first one it adds, exactly
/// when it skips a level (`level > prev + 1`: h1 then h3 is reported, h1
/// then h2 or h3 then h1 is not); what was found before stays, and the
/// heading becomes the previous one.
pub proof fn law_heading_skip_reported(e: ElementModel, path: Seq<Seq<char>>, st: WalkState, level: u8, prev: u8)
    requires
        heading_level_s(e.tag) == Some(level),
        st.heading_prev == Some(prev),
    ensures
        keeps_found(st.violations, lint_element_s(e, path, st).violations),
        lint_element_s(e, path, st).heading_prev == Some(level),
        (level > prev + 1) <==> (lint_element_s(e, path, st).violations.len() > st.violations.len()
            && lint_element_s(e, path, st).violations[st.violations.len() as int].rule == "heading-order"@),
{
    lemma_lint_element_keeps(e, path, st);
    reveal_strlit("heading-order");
    reveal_strlit("image-alt");
    reveal_strlit("form-label");
    reveal_strlit("interactive-name");
    let r = lint_element_s(e, path, st);
    if level > prev + 1 {
        assert(r.violations[st.violations.len() as int].rule == "heading-order"@);
    } else if r.violations.len() > st.violations.len() {
        let n = st.violations.len() as int;
        let st1 = WalkState { heading_prev: Some(level), ..st };
        assert(lint_element_s(e, path, st) == lint_element_s(e, path, st1));
        if is_image_s(e) && !has_attr_s(e.attrs, "alt"@) && !non_empty_attr_s(e.attrs, "aria-label"@)
            && !non_empty_attr_s(e.attrs, "aria-labelledby"@) {
            assert(r.violations[n].rule == "image-alt"@);
        } else {
            assert(r.violations[n].rule == "form-label"@ || r.violations[n].rule == "interactive-name"@);
        }
    }
}

proof fn lemma_lint_list_keeps(tag: Seq<char>, kids: Seq<NodeModel>, i: int, path: Seq<Seq<char>>, st: WalkState)
    ensures
        keeps_found(st.violations, lint_list_s(tag, kids, i, path, st).violations),
        lint_list_s(tag, kids, i, path, st).heading_prev == st.heading_prev,
    decreases i,
{
    assert(st.violations.take(st.violations.len() as int) =~= st.violations);
    if i > 0 && i <= kids.len() {
        lemma_lint_list_keeps(tag, kids, i - 1, path, st);
        let prior = lint_list_s(tag, kids, i - 1, path, st);
        let c = kids[i - 1];
        match c {
            NodeModel::Text(t) => {
                lemma_keeps_report(prior, path, "list-structure"@, Severity::Moderate,
                    "`<"@ + tag + ">` contains raw text `"@ + debug_repr(t) + "`"@, "wrap list text in `<li>`"@,
                    st.violations);
            },
            NodeModel::Element(ce) => {
                lemma_keeps_report(prior, path, "list-structure"@, Severity::Moderate,
                    "`<"@ + tag + ">` contains `<"@ + ce.tag + ">`, not `<li>`"@,
                    "children of a list must be `<li>` or role=\"listitem\""@, st.violations);
            },
            _ => {},
        }
    }
}

proof fn lemma_keeps_trans(a: Seq<ViolationModel>, b: Seq<ViolationModel>, c: Seq<ViolationModel>)
    requires
        keeps_found(a, b),
        keeps_found(b, c),
    ensures
        keeps_found(a, c),
{
    assert(c.take(a.len() as int) =~= b.take(a.len() as int));
}

/// Walking a tree keeps what was found before it, and afterwards the
/// previous heading is the last heading of the tree in pre-order, or the
/// one before the tree where it has none.
pub proof fn law_walk_tracks_last_heading(n: NodeModel, path: Seq<Seq<char>>, st: WalkState)
    ensures
        keeps_found(st.violations, walk_s(n, path, st).violations),
        walk_s(n, path, st).heading_prev == match last_heading(n) {
            Some(l) => Some(l),
            None => st.heading_prev,
        },
    decreases n, 0int,
{
    assert(st.violations.take(st.violations.len() as int) =~= st.violations);
    match n {
        NodeModel::Fragment(c) => {
            lemma_walk_list_tracks(c, path, st);
        },
        NodeModel::Component(c) => {
            law_walk_tracks_last_heading(*c.rendered, path.push("<"@ + c.name + ">"@), st);
        },
        NodeModel::Element(e) => {
            let st1 = if e.tag == "main"@ || role_s(e) == Some("main"@) {
                WalkState { saw_main: true, ..st }
            } else {
                st
            };
            let p2 = path.push(segment_s(e));
            lemma_lint_element_keeps(e, p2, st1);
            let st2 = lint_element_s(e, p2, st1);
            lemma_lint_list_keeps(e.tag, e.children, e.children.len() as int, p2, st2);
            let st3 = if e.tag == "ul"@ || e.tag == "ol"@ {
                lint_list_s(e.tag, e.children, e.children.len() as int, p2, st2)
            } else {
                st2
            };
            assert(st2.violations.take(st2.violations.len() as int) =~= st2.violations);
            lemma_walk_list_tracks(e.children, p2, st3);
            lemma_keeps_trans(st.violations, st2.violations, st3.violations);
            lemma_keeps_trans(st.violations, st3.violations, walk_list_s(e.children, p2, st3).violations);
        },
        _ => {},
    }
}

proof fn lemma_walk_list_tracks(s: Seq<NodeModel>, path: Seq<Seq<char>>, st: WalkState)
    ensures
        keeps_found(st.violations, walk_list_s(s, path, st).violations),
        walk_list_s(s, path, st).heading_prev == match last_heading_list(s) {
            Some(l) => Some(l),
            None => st.heading_prev,
        },
    decreases s, 0int,
{
    assert(st.violations.take(st.violations.len() as int) =~= st.violations);
    if s.len() > 0 {
        lemma_walk_list_tracks(s.drop_last(), path, st);
        let mid = walk_list_s(s.drop_last(), path, st);
        law_walk_tracks_last_heading(s.last(), path, mid);
        lemma_keeps_trans(st.violations, mid.violations, walk_s(s.last(), path, mid).violations);
    }
}

/// A heading that comes, in pre-order, after siblings whose last heading
/// has level `prev` (or after a heading before them, where they hold none)
/// and skips a level is reported: walking it adds, right after what was
/// found before it, a `heading-order` violation saying which levels.
pub proof fn law_heading_skip_in_walk(s: Seq<NodeModel>, e: ElementModel, path: Seq<Seq<char>>, st: WalkState, level: u8, prev: u8)
    requires
        heading_level_s(e.tag) == Some(level),
        match last_heading_list(s) {
            Some(l) => l == prev,
            None => st.heading_prev == Some(prev),
        },
        level > prev + 1,
    ensures
        ({
            let before = walk_list_s(s, path, st).violations;
            let after = walk_list_s(s.push(NodeModel::Element(e)), path, st).violations;
            &&& keeps_found(before, after)
            &&& after.len() > before.len()
            &&& after[before.len() as int].rule == "heading-order"@
            &&& after[before.len() as int].message == "heading skips a level: h"@ + decimal(prev as nat) + " -> h"@
                + decimal(level as nat)
        }),
{
    lemma_walk_list_tracks(s, path, st);
    let mid = walk_list_s(s, path, st);
    let t = s.push(NodeModel::Element(e));
    assert(t.drop_last() =~= s);
    let st1 = if e.tag == "main"@ || role_s(e) == Some("main"@) {
        WalkState { saw_main: true, ..mid }
    } else {
        mid
    };
    let p2 = path.push(segment_s(e));
    lemma_lint_element_keeps(e, p2, st1);
    let st2 = lint_element_s(e, p2, st1);
    let n = mid.violations.len() as int;
    assert(st2.violations[n].rule == "heading-order"@);
    lemma_lint_list_keeps(e.tag, e.children, e.children.len() as int, p2, st2);
    let st3 = if e.tag == "ul"@ || e.tag == "ol"@ {
        lint_list_s(e.tag, e.children, e.children.len() as int, p2, st2)
    } else {
        st2
    };
    assert(st2.violations.take(st2.violations.len() as int) =~= st2.violations);
    lemma_walk_list_tracks(e.children, p2, st3);
    lemma_keeps_trans(st2.violations, st3.violations, walk_list_s(e.children, p2, st3).violations);
    lemma_keeps_trans(mid.violations, st2.violations, walk_list_s(e.children, p2, st3).violations);
    let fin = walk_list_s(e.children, p2, st3).violations;
    assert(fin.take(st2.violations.len() as int)[n] == fin[n]);
    assert(walk_s(NodeModel::Element(e), path, mid).violations == fin);
    assert(walk_list_s(t, path, st) == walk_s(t.last(), path, walk_list_s(t.drop_last(), path, st)));
    assert(walk_list_s(t, path, st).violations == fin);
    assert(fin[n] == st2.violations[n]);
}

} // verus!
