//! Renders a markdown analysis report as a standalone HTML document: stable
//! heading anchors, an automatically built table of contents, a fixed document
//! template, and post-hoc hyperlinking of known entity names to companion
//! report files.
pub mod decimal;
pub mod escape;
pub mod events;
pub mod extract;
pub mod linker;
pub mod render;
pub mod template;
pub mod toc;

use vstd::prelude::*;

verus! {

/// Sequence of the views of a sequence of values.
pub open spec fn views<T: View>(s: Seq<T>) -> Seq<T::V> {
    s.map_values(|t: T| t@)
}

} // verus!
