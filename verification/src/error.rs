//! Error values of rendering, props validation, components and hydration.
use vstd::prelude::*;
use vstd::string::StringExecFns;
use crate::strutil::{debug_str, debug_repr};

verus! {

/// A failure while rendering a view.
#[derive(Debug, Clone, PartialEq, Eq)]
pub enum RenderError {
    Panicked { location: String, payload: String },
    InvalidTree(String),
    RejectedRawHtml(String),
    Other { component: String, message: String },
}

/// A props value that a component does not accept.
#[derive(Debug, Clone, PartialEq, Eq)]
pub enum PropsError {
    MissingRequired { component: String, prop: String },
    Invalid { component: String, prop: String, hint: String },
}

/// A failure of a component lifecycle stage.
#[derive(Debug, Clone, PartialEq, Eq)]
pub enum ComponentError {
    Create { component: String, message: String },
    Update { component: String, msg: String, message: String },
    Lifecycle { component: String, hook: String, message: String },
    Panicked { component: String, stage: String, location: String, payload: String },
    Render(RenderError),
    Props(PropsError),
}

/// A divergence between server HTML and the client tree.
#[derive(Debug, Clone, PartialEq, Eq)]
pub enum HydrationError {
    TagMismatch { hid: String, server: String, client: String },
    TextMismatch { hid: String, server: String, client: String },
    Structure { hid: String, message: String },
    Checksum { server: String, client: String },
}

/// `e` is the error the patch applier reports, with message `m`.
pub open spec fn is_patch_error(e: ComponentError, m: Seq<char>) -> bool {
    e matches ComponentError::Lifecycle { component, hook, message } && component@ == "Renderer"@
        && hook@ == "patch"@ && message@ == m
}

// ---------------------------------------------------------------------------
// Messages
// ---------------------------------------------------------------------------

pub open spec fn render_error_text(e: RenderError) -> Seq<char> {
    match e {
        RenderError::Panicked { location, payload } => "render panicked at "@ + location@ + ": "@ + payload@,
        RenderError::InvalidTree(s) => "invalid virtual DOM: "@ + s@,
        RenderError::RejectedRawHtml(s) => "rejected raw html: "@ + s@,
        RenderError::Other { component, message } => "render failed in "@ + component@ + ": "@ + message@,
    }
}

pub open spec fn props_error_text(e: PropsError) -> Seq<char> {
    match e {
        PropsError::MissingRequired { component, prop } => "missing required prop `"@ + prop@ + "` on component `"@
            + component@ + "`"@,
        PropsError::Invalid { component, prop, hint } => "invalid prop `"@ + prop@ + "` on `"@ + component@ + "`: "@
            + hint@,
    }
}

pub open spec fn component_error_text(e: ComponentError) -> Seq<char> {
    match e {
        ComponentError::Create { component, message } => "create failed for "@ + component@ + ": "@ + message@,
        ComponentError::Update { component, msg, message } => "update failed for "@ + component@ + " on msg "@ + msg@
            + ": "@ + message@,
        ComponentError::Lifecycle { component, hook, message } => "lifecycle `"@ + hook@ + "` failed for "@
            + component@ + ": "@ + message@,
        ComponentError::Panicked { component, stage, location, payload } => "component "@ + component@
            + " panicked in "@ + stage@ + " at "@ + location@ + ": "@ + payload@,
        ComponentError::Render(r) => render_error_text(r),
        ComponentError::Props(p) => props_error_text(p),
    }
}

pub open spec fn hydration_error_text(e: HydrationError) -> Seq<char> {
    match e {
        HydrationError::TagMismatch { hid, server, client } => "hydration tag mismatch at "@ + hid@
            + ": server had <"@ + server@ + ">, client wants <"@ + client@ + ">"@,
        HydrationError::TextMismatch { hid, server, client } => "hydration text mismatch at "@ + hid@ + ": server "@
            + debug_repr(server@) + " vs client "@ + debug_repr(client@),
        HydrationError::Structure { hid, message } => "hydration structure mismatch at "@ + hid@ + ": "@ + message@,
        HydrationError::Checksum { server, client } => "hydration checksum mismatch: server "@ + server@
            + " vs client "@ + client@,
    }
}

pub(crate) fn concat(parts: &[&str]) -> (r: String)
    ensures
        r@ == concat_s(parts@.map_values(|p: &str| p@)),
{
    let ghost v = parts@.map_values(|p: &str| p@);
    let mut s = String::new();
    for i in 0..parts.len()
        invariant
            v == parts@.map_values(|p: &str| p@),
            s@ == concat_s(v.take(i as int)),
    {
        s.append(parts[i]);
        assert(v.take(i + 1).drop_last() =~= v.take(i as int));
        assert(s@ =~= concat_s(v.take(i + 1)));
    }
    assert(v.take(v.len() as int) =~= v);
    s
}

/// The texts one after the other.
pub open spec fn concat_s(parts: Seq<Seq<char>>) -> Seq<char>
    decreases parts.len(),
{
    if parts.len() == 0 {
        Seq::empty()
    } else {
        concat_s(parts.drop_last()) + parts.last()
    }
}

impl RenderError {
    /// The error as text.
    pub fn message(&self) -> (r: String)
        ensures
            r@ == render_error_text(*self),
    {
        let r = match self {
            RenderError::Panicked { location, payload } => concat(&["render panicked at ", location.as_str(), ": ", payload.as_str()]),
            RenderError::InvalidTree(s) => concat(&["invalid virtual DOM: ", s.as_str()]),
            RenderError::RejectedRawHtml(s) => concat(&["rejected raw html: ", s.as_str()]),
            RenderError::Other { component, message } => concat(&["render failed in ", component.as_str(), ": ", message.as_str()]),
        };
        proof {
            reveal_with_fuel(concat_s, 5);
        }
        assert(r@ =~= render_error_text(*self));
        r
    }
}

impl PropsError {
    /// The error as text.
    pub fn message(&self) -> (r: String)
        ensures
            r@ == props_error_text(*self),
    {
        let r = match self {
            PropsError::MissingRequired { component, prop } => concat(&["missing required prop `", prop.as_str(), "` on component `", component.as_str(), "`"]),
            PropsError::Invalid { component, prop, hint } => concat(&["invalid prop `", prop.as_str(), "` on `", component.as_str(), "`: ", hint.as_str()]),
        };
        proof {
            reveal_with_fuel(concat_s, 7);
        }
        assert(r@ =~= props_error_text(*self));
        r
    }
}

impl ComponentError {
    /// The error as text.
    pub fn message(&self) -> (r: String)
        ensures
            r@ == component_error_text(*self),
    {
        let r = match self {
            ComponentError::Create { component, message } => concat(&["create failed for ", component.as_str(), ": ", message.as_str()]),
            ComponentError::Update { component, msg, message } => concat(&["update failed for ", component.as_str(), " on msg ", msg.as_str(), ": ", message.as_str()]),
            ComponentError::Lifecycle { component, hook, message } => concat(&["lifecycle `", hook.as_str(), "` failed for ", component.as_str(), ": ", message.as_str()]),
            ComponentError::Panicked { component, stage, location, payload } => concat(&["component ", component.as_str(), " panicked in ", stage.as_str(), " at ", location.as_str(), ": ", payload.as_str()]),
            ComponentError::Render(e) => e.message(),
            ComponentError::Props(e) => e.message(),
        };
        proof {
            reveal_with_fuel(concat_s, 9);
        }
        assert(r@ =~= component_error_text(*self));
        r
    }
}

impl HydrationError {
    /// The error as text.
    pub fn message(&self) -> (r: String)
        ensures
            r@ == hydration_error_text(*self),
    {
        let r = match self {
            HydrationError::TagMismatch { hid, server, client } => concat(&["hydration tag mismatch at ", hid.as_str(), ": server had <", server.as_str(), ">, client wants <", client.as_str(), ">"]),
            HydrationError::TextMismatch { hid, server, client } => {
                let sd = debug_str(server.as_str());
                let cd = debug_str(client.as_str());
                concat(&["hydration text mismatch at ", hid.as_str(), ": server ", sd.as_str(), " vs client ", cd.as_str()])
            },
            HydrationError::Structure { hid, message } => concat(&["hydration structure mismatch at ", hid.as_str(), ": ", message.as_str()]),
            HydrationError::Checksum { server, client } => concat(&["hydration checksum mismatch: server ", server.as_str(), " vs client ", client.as_str()]),
        };
        proof {
            reveal_with_fuel(concat_s, 8);
        }
        assert(r@ =~= hydration_error_text(*self));
        r
    }
}

// ---------------------------------------------------------------------------
// Conversions
// ---------------------------------------------------------------------------

impl From<RenderError> for ComponentError {
    fn from(e: RenderError) -> (r: ComponentError) {
        ComponentError::Render(e)
    }
}

impl vstd::std_specs::convert::FromSpecImpl<RenderError> for ComponentError {
    open spec fn obeys_from_spec() -> bool {
        true
    }

    open spec fn from_spec(e: RenderError) -> ComponentError {
        ComponentError::Render(e)
    }
}

impl From<PropsError> for ComponentError {
    fn from(e: PropsError) -> (r: ComponentError) {
        ComponentError::Props(e)
    }
}

impl vstd::std_specs::convert::FromSpecImpl<PropsError> for ComponentError {
    open spec fn obeys_from_spec() -> bool {
        true
    }

    open spec fn from_spec(e: PropsError) -> ComponentError {
        ComponentError::Props(e)
    }
}

} // verus!
