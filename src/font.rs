//! Metrics of a monospace CJK font, in page units.
use vstd::prelude::*;

verus! {

/// Size and vertical metrics of a font; every glyph is taken to be half the
/// size wide per column.
pub struct FontMetrics {
    pub size: u32,
    pub internal_leading: u32,
    pub ascent: u32,
    pub descent: u32,
    pub external_leading: u32,
}

impl FontMetrics {
    /// Height of a glyph box: internal leading, ascent and descent.
    pub open spec fn height_spec(&self) -> int {
        self.internal_leading + self.ascent + self.descent
    }

    /// Distance from one row's baseline to the next: height and external leading.
    pub open spec fn row_height_spec(&self) -> int {
        self.height_spec() + self.external_leading
    }

    /// Width of a column: half the font size, rounded down.
    pub fn width(&self) -> (r: u32)
        ensures
            r == self.size / 2,
    {
        self.size / 2
    }

    /// Height of a glyph box.
    pub fn height(&self) -> (r: u32)
        requires
            self.height_spec() <= u32::MAX,
        ensures
            r == self.height_spec(),
    {
        self.internal_leading + self.ascent + self.descent
    }

    /// Distance between the baselines of two rows.
    pub fn row_height(&self) -> (r: u32)
        requires
            self.row_height_spec() <= u32::MAX,
        ensures
            r == self.row_height_spec(),
    {
        self.height() + self.external_leading
    }
}

} // verus!
