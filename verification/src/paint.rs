//! Compositing selectors: blend modes with their Porter–Duff factor table,
//! gradient/texture spread modes, texture filtering, and texel index wrapping.

use vstd::prelude::*;

verus! {

/// How a source is blended onto the background.
#[derive(Copy, Clone, Debug, PartialEq, Eq, Structural)]
pub enum BlendMode {
    Clear,
    Source,
    Destination,
    SourceOver,
    DestinationOver,
    SourceIn,
    DestinationIn,
    SourceOut,
    DestinationOut,
    SourceAtop,
    DestinationAtop,
    Xor,
    /// Additive blending with saturation.
    Plus,
    Multiply,
    Screen,
    Overlay,
    Darken,
    Lighten,
    HardLight,
    /// A softer hard light (W3C compositing).
    SoftLight,
    /// The absolute difference of the channels.
    Difference,
    /// Like difference, with lower contrast.
    Exclusion,
    /// Brightens the background by dividing by the inverted source.
    ColorDodge,
    /// Darkens the background by dividing the inverted background by the source.
    ColorBurn,
}

impl Default for BlendMode {
    fn default() -> (m: BlendMode)
        ensures
            m == BlendMode::SourceOver,
    {
        BlendMode::SourceOver
    }
}

/// A Porter–Duff weight, in terms of the source alpha `αs` and the
/// background alpha `αb`.
#[derive(Copy, Clone, Debug, PartialEq, Eq, Structural)]
pub enum Factor {
    Zero,
    One,
    SourceAlpha,
    DestinationAlpha,
    OneMinusSourceAlpha,
    OneMinusDestinationAlpha,
}

/// The Porter–Duff weights `(Fa, Fb)` of a separable mode, as in
/// `result = source · Fa + background · Fb`; `None` for the modes that are
/// blended channel by channel with the W3C formula.
pub open spec fn porter_duff_spec(mode: BlendMode) -> Option<(Factor, Factor)> {
    match mode {
        BlendMode::Clear => Some((Factor::Zero, Factor::Zero)),
        BlendMode::Source => Some((Factor::One, Factor::Zero)),
        BlendMode::Destination => Some((Factor::Zero, Factor::One)),
        BlendMode::SourceOver => Some((Factor::One, Factor::OneMinusSourceAlpha)),
        BlendMode::DestinationOver => Some((Factor::OneMinusDestinationAlpha, Factor::One)),
        BlendMode::SourceIn => Some((Factor::DestinationAlpha, Factor::Zero)),
        BlendMode::DestinationIn => Some((Factor::Zero, Factor::SourceAlpha)),
        BlendMode::SourceOut => Some((Factor::OneMinusDestinationAlpha, Factor::Zero)),
        BlendMode::DestinationOut => Some((Factor::Zero, Factor::OneMinusSourceAlpha)),
        BlendMode::SourceAtop => Some((Factor::DestinationAlpha, Factor::OneMinusSourceAlpha)),
        BlendMode::DestinationAtop => Some((Factor::OneMinusDestinationAlpha, Factor::SourceAlpha)),
        BlendMode::Xor => Some((Factor::OneMinusDestinationAlpha, Factor::OneMinusSourceAlpha)),
        BlendMode::Plus => Some((Factor::One, Factor::One)),
        _ => None,
    }
}

impl BlendMode {
    /// The Porter–Duff weights of a separable mode; `None` for the
    /// non-separable ones (`Multiply` … `ColorBurn`).
    pub fn porter_duff_factors(self) -> (f: Option<(Factor, Factor)>)
        ensures
            f == porter_duff_spec(self),
    {
        match self {
            BlendMode::Clear => Some((Factor::Zero, Factor::Zero)),
            BlendMode::Source => Some((Factor::One, Factor::Zero)),
            BlendMode::Destination => Some((Factor::Zero, Factor::One)),
            BlendMode::SourceOver => Some((Factor::One, Factor::OneMinusSourceAlpha)),
            BlendMode::DestinationOver => Some((Factor::OneMinusDestinationAlpha, Factor::One)),
            BlendMode::SourceIn => Some((Factor::DestinationAlpha, Factor::Zero)),
            BlendMode::DestinationIn => Some((Factor::Zero, Factor::SourceAlpha)),
            BlendMode::SourceOut => Some((Factor::OneMinusDestinationAlpha, Factor::Zero)),
            BlendMode::DestinationOut => Some((Factor::Zero, Factor::OneMinusSourceAlpha)),
            BlendMode::SourceAtop => Some((Factor::DestinationAlpha, Factor::OneMinusSourceAlpha)),
            BlendMode::DestinationAtop => Some((Factor::OneMinusDestinationAlpha, Factor::SourceAlpha)),
            BlendMode::Xor => Some((Factor::OneMinusDestinationAlpha, Factor::OneMinusSourceAlpha)),
            BlendMode::Plus => Some((Factor::One, Factor::One)),
            _ => None,
        }
    }
}

/// How coordinates outside the gradient range or the texture are handled.
#[derive(Copy, Clone, Debug, PartialEq, Eq, Structural)]
pub enum SpreadMode {
    /// Clamp to the edge.
    Pad,
    /// Repeat.
    Repeat,
    /// Mirror back and forth.
    Reflect,
}

impl Default for SpreadMode {
    fn default() -> (m: SpreadMode)
        ensures
            m == SpreadMode::Pad,
    {
        SpreadMode::Pad
    }
}

/// Interpolation quality when sampling a texture.
#[derive(Copy, Clone, Debug, PartialEq, Eq, Structural)]
pub enum FilterQuality {
    /// The nearest texel: sharp.
    Nearest,
    /// Bilinear interpolation of the four neighbors: soft.
    Bilinear,
}

impl Default for FilterQuality {
    fn default() -> (q: FilterQuality)
        ensures
            q == FilterQuality::Nearest,
    {
        FilterQuality::Nearest
    }
}

/// The texel index that index `i` maps to on an axis of `size` texels.
pub open spec fn wrap_index_spec(i: int, size: int, spread: SpreadMode) -> int {
    if size <= 0 {
        0
    } else {
        match spread {
            SpreadMode::Pad => if i < 0 {
                0
            } else if i > size - 1 {
                size - 1
            } else {
                i
            },
            SpreadMode::Repeat => i % size,
            SpreadMode::Reflect => {
                let m = i % (2 * size);
                if m < size {
                    m
                } else {
                    2 * size - 1 - m
                }
            },
        }
    }
}

/// Brings a texel index into `[0, size)` by the tiling mode: clamped for
/// `Pad`, taken modulo the size for `Repeat`, and mirrored every `size`
/// texels for `Reflect`. Zero for an empty axis.
pub fn wrap_index(i: i32, size: i32, spread: SpreadMode) -> (r: i32)
    requires
        spread == SpreadMode::Reflect ==> size <= i32::MAX / 2,
    ensures
        r == wrap_index_spec(i as int, size as int, spread),
        size > 0 ==> 0 <= r < size,
{
    if size <= 0 {
        return 0;
    }
    match spread {
        SpreadMode::Pad => if i < 0 {
            0
        } else if i > size - 1 {
            size - 1
        } else {
            i
        },
        SpreadMode::Repeat => euclid_rem(i, size),
        SpreadMode::Reflect => {
            let period = 2 * size;
            let m = euclid_rem(i, period);
            if m < size {
                m
            } else {
                period - 1 - m
            }
        },
    }
}

/// The non-negative remainder of `i` by a positive `n`.
fn euclid_rem(i: i32, n: i32) -> (r: i32)
    requires
        n > 0,
    ensures
        r == (i as int) % (n as int),
        0 <= r < n,
{
    match i.checked_rem_euclid(n) {
        Some(r) => r,
        None => 0,
    }
}

} // verus!
