//! The plotter handle used by rendering front ends.
//!
//! Rendering itself — turning laid-out coordinates into an SVG document
//! — happens outside this crate; the handle only carries the style
//! sheet the front end applies.

use vstd::prelude::*;

verus! {

/// A handle carrying the CSS applied to plotted trees.
pub struct SvgPlotter {
    pub style: String,
}

impl SvgPlotter {
    /// A plotter with the given style sheet.
    pub fn new(style: String) -> (r: Self)
        ensures
            r.style@ == style@,
    {
        SvgPlotter { style }
    }
}

impl Default for SvgPlotter {
    /// A plotter with an empty style sheet.
    fn default() -> (r: Self)
        ensures
            r.style@.len() == 0,
    {
        SvgPlotter { style: String::new() }
    }
}

} // verus!
