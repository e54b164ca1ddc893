//! Plain style selectors: easing curves, flex-layout axis and alignment, shape
//! kinds, text alignment, fill rules and stroke caps/joins.

use vstd::prelude::*;

verus! {

/// An animation easing curve.
#[derive(Copy, Clone, Debug, PartialEq, Eq, Structural)]
pub enum Easing {
    /// Linear (no smoothing).
    Linear,
    QuadIn,
    QuadOut,
    QuadInOut,
    CubicIn,
    CubicOut,
    CubicInOut,
    QuartIn,
    QuartOut,
    QuartInOut,
    SineIn,
    SineOut,
    SineInOut,
    ExpoIn,
    ExpoOut,
    ExpoInOut,
    /// A slight backward overshoot at the start.
    BackIn,
    /// A slight overshoot at the end.
    BackOut,
    BackInOut,
    /// A damped bounce at the start.
    BounceIn,
    /// A damped bounce at the end.
    BounceOut,
    BounceInOut,
    /// A spring at the start.
    ElasticIn,
    /// A spring at the end.
    ElasticOut,
    ElasticInOut,
}

impl Default for Easing {
    fn default() -> (e: Easing)
        ensures
            e == Easing::Linear,
    {
        Easing::Linear
    }
}

/// The children's layout axis (like `flex-direction`).
#[derive(Copy, Clone, Debug, PartialEq, Eq, Structural)]
pub enum Direction {
    /// Left to right.
    Row,
    /// Top to bottom.
    Column,
}

impl Default for Direction {
    fn default() -> (d: Direction)
        ensures
            d == Direction::Row,
    {
        Direction::Row
    }
}

/// Distribution along the main axis (like `justify-content`).
#[derive(Copy, Clone, Debug, PartialEq, Eq, Structural)]
pub enum Justify {
    Start,
    Center,
    End,
    /// The outer items touch the edges, the gaps are equal.
    SpaceBetween,
    /// Equal gaps around each item.
    SpaceAround,
}

impl Default for Justify {
    fn default() -> (j: Justify)
        ensures
            j == Justify::Start,
    {
        Justify::Start
    }
}

/// Alignment along the cross axis (like `align-items`).
#[derive(Copy, Clone, Debug, PartialEq, Eq, Structural)]
pub enum Align {
    Start,
    Center,
    End,
    /// Stretch across the container's cross axis.
    Stretch,
}

impl Default for Align {
    fn default() -> (a: Align)
        ensures
            a == Align::Start,
    {
        Align::Start
    }
}

/// The kind of a scene node.
#[derive(Copy, Clone, Debug, PartialEq, Eq, Structural)]
pub enum ShapeKind {
    /// A rectangle, with rounded corners by its radius.
    Rect,
    /// An ellipse inscribed in the bounding box.
    Circle,
    /// A container that lays out children and draws nothing itself.
    Layout,
    /// Lines of text with CSS-like properties.
    Text,
    /// Text colored per character by syntax highlighting.
    Code,
}

/// Horizontal alignment of lines in a text block (like `text-align`).
#[derive(Copy, Clone, Debug, PartialEq, Eq, Structural)]
pub enum TextAlign {
    Left,
    Center,
    Right,
}

/// The rule that decides which points a path fills.
#[derive(Copy, Clone, Debug, PartialEq, Eq, Structural)]
pub enum FillRule {
    /// Non-zero winding — the standard rule.
    NonZero,
    /// Even-odd.
    EvenOdd,
}

impl Default for FillRule {
    fn default() -> (r: FillRule)
        ensures
            r == FillRule::NonZero,
    {
        FillRule::NonZero
    }
}

/// The shape of the ends of open lines.
#[derive(Copy, Clone, Debug, PartialEq, Eq, Structural)]
pub enum LineCap {
    /// Cut exactly at the end.
    Butt,
    /// A semicircle.
    Round,
    /// A square extension by half the width.
    Square,
}

impl Default for LineCap {
    fn default() -> (c: LineCap)
        ensures
            c == LineCap::Butt,
    {
        LineCap::Butt
    }
}

/// The shape of a join between segments.
#[derive(Copy, Clone, Debug, PartialEq, Eq, Structural)]
pub enum LineJoin {
    /// A sharp corner, bounded by the miter limit.
    Miter,
    /// A rounded join.
    Round,
    /// A cut corner.
    Bevel,
}

impl Default for LineJoin {
    fn default() -> (j: LineJoin)
        ensures
            j == LineJoin::Miter,
    {
        LineJoin::Miter
    }
}

} // verus!
