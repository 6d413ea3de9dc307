//! Helpers for tests of components: snapshots as S-expressions, and the
//! configuration of browser tests.
use vstd::prelude::*;
use crate::vnode::{VNode, sexpr};

verus! {

/// The S-expression snapshot of a tree.
pub fn render_to_sexpr(node: &VNode) -> (r: String)
    ensures
        r@ == sexpr(node@),
{
    node.to_sexpr()
}

/// A browser that browser tests can drive.
#[derive(Debug, Clone, Copy, PartialEq, Eq, Structural)]
pub enum Browser {
    Chrome,
    Firefox,
    Safari,
}

/// How browser tests reach a browser.
#[derive(Debug, Clone)]
pub struct HeadlessConfig {
    pub browser: Browser,
    pub webdriver_url: String,
    pub headless: bool,
}

} // verus!
