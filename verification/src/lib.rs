use vstd::prelude::*;

pub mod model;
pub mod patch;
pub mod perf;
pub mod a11y;
pub mod codegen;
pub mod diff;
pub mod diff_self;
pub mod error;
pub mod html;
pub mod events;
pub mod renderer;
pub mod roundtrip;
pub mod router;
pub mod scheduler;
pub mod ssr;
pub mod strutil;
pub mod testing;
pub mod token;
pub mod ui;
pub mod vnode;

verus! {

} // verus!
