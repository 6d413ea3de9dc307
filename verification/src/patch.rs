//! Patches: the edits that turn one virtual DOM tree into another.
use vstd::prelude::*;
use crate::vnode::{AttrValue, VNode};
use crate::model::{ValueModel, NodeModel};

verus! {

/// An index path from the root through child lists.
pub type PatchPath = Vec<usize>;

/// One edit of a tree. `Remove` paths address the old tree; the others the new one.
#[derive(Debug, Clone, PartialEq, Eq)]
pub enum Patch {
    Replace { path: PatchPath, new: VNode },
    Create { path: PatchPath, index: usize, node: VNode },
    Remove { path: PatchPath },
    SetText { path: PatchPath, text: String },
    SetAttr { path: PatchPath, name: String, value: AttrValue },
    RemoveAttr { path: PatchPath, name: String },
    Move { path: PatchPath, from: usize, to: usize, key: String },
    SetListener { path: PatchPath, event: String, handler_id: String },
    RemoveListener { path: PatchPath, event: String },
}

/// Model of a patch.
pub enum PatchModel {
    Replace { path: Seq<usize>, new: NodeModel },
    Create { path: Seq<usize>, index: usize, node: NodeModel },
    Remove { path: Seq<usize> },
    SetText { path: Seq<usize>, text: Seq<char> },
    SetAttr { path: Seq<usize>, name: Seq<char>, value: ValueModel },
    RemoveAttr { path: Seq<usize>, name: Seq<char> },
    Move { path: Seq<usize>, from: usize, to: usize, key: Seq<char> },
    SetListener { path: Seq<usize>, event: Seq<char>, handler_id: Seq<char> },
    RemoveListener { path: Seq<usize>, event: Seq<char> },
}

impl View for Patch {
    type V = PatchModel;

    open spec fn view(&self) -> PatchModel {
        match self {
            Patch::Replace { path, new } => PatchModel::Replace { path: path@, new: new@ },
            Patch::Create { path, index, node } => PatchModel::Create {
                path: path@,
                index: *index,
                node: node@,
            },
            Patch::Remove { path } => PatchModel::Remove { path: path@ },
            Patch::SetText { path, text } => PatchModel::SetText { path: path@, text: text@ },
            Patch::SetAttr { path, name, value } => PatchModel::SetAttr {
                path: path@,
                name: name@,
                value: value@,
            },
            Patch::RemoveAttr { path, name } => PatchModel::RemoveAttr { path: path@, name: name@ },
            Patch::Move { path, from, to, key } => PatchModel::Move {
                path: path@,
                from: *from,
                to: *to,
                key: key@,
            },
            Patch::SetListener { path, event, handler_id } => PatchModel::SetListener {
                path: path@,
                event: event@,
                handler_id: handler_id@,
            },
            Patch::RemoveListener { path, event } => PatchModel::RemoveListener {
                path: path@,
                event: event@,
            },
        }
    }
}

/// Models of a list of patches.
pub open spec fn patches_model(s: Seq<Patch>) -> Seq<PatchModel> {
    s.map_values(|p: Patch| p@)
}

/// The path a patch addresses.
pub open spec fn path_of(p: PatchModel) -> Seq<usize> {
    match p {
        PatchModel::Replace { path, .. } => path,
        PatchModel::Create { path, .. } => path,
        PatchModel::Remove { path } => path,
        PatchModel::SetText { path, .. } => path,
        PatchModel::SetAttr { path, .. } => path,
        PatchModel::RemoveAttr { path, .. } => path,
        PatchModel::Move { path, .. } => path,
        PatchModel::SetListener { path, .. } => path,
        PatchModel::RemoveListener { path, .. } => path,
    }
}

impl Patch {
    /// Whether this is a `Move`.
    pub fn is_move(&self) -> (r: bool)
        ensures
            r == (self@ is Move),
    {
        match self {
            Patch::Move { .. } => true,
            _ => false,
        }
    }

    /// The path this patch addresses.
    pub fn path(&self) -> (r: &PatchPath)
        ensures
            r@ == path_of(self@),
    {
        match self {
            Patch::Replace { path, .. } => path,
            Patch::Remove { path } => path,
            Patch::SetText { path, .. } => path,
            Patch::SetAttr { path, .. } => path,
            Patch::RemoveAttr { path, .. } => path,
            Patch::Create { path, .. } => path,
            Patch::Move { path, .. } => path,
            Patch::SetListener { path, .. } => path,
            Patch::RemoveListener { path, .. } => path,
        }
    }
}

} // verus!
