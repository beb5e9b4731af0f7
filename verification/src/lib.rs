use vstd::prelude::*;

pub mod columns;
pub mod config;
pub mod events;
pub mod fetch;
pub mod flatten;
pub mod groups;
pub mod json;
pub mod line;
pub mod pattern;
pub mod render;
pub mod tail;
pub mod time;
pub mod text;

verus! {

/// Largest number of events the remote store hands back in one page.
pub const MAX_PAGE_SIZE: usize = 10000;

} // verus!
