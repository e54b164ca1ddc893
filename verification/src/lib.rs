//! The verified core of a CPU renderer for declarative 2D animation: 8-bit
//! colors and premultiplied pixel buffers, PNG framing, clipping masks, font
//! metrics in font units, character-indexed text editing and highlight
//! ranges, the character diff behind text morphs, syntax-highlight coloring,
//! reactive signals, and the names of rendered frames.

pub mod code;
pub mod codec;
pub mod color;
pub mod diff;
pub mod font;
pub mod frames;
pub mod mask;
pub mod morph;
pub mod output;
pub mod paint;
pub mod pixmap;
pub mod signal;
pub mod style;
pub mod text;

pub use code::{
    classify, color_line, compute_colors, Category, Grammars, Language, LineOps, Palette, PaletteView,
    ScopeTrack,
};
pub use codec::{ChannelLayout, DecodedFrame, PngError};
pub use color::{ColorU8, PremultipliedColorU8};
pub use diff::{diff_runs, longest_common_substring, DiffOp, MIN_COMMON_RUN};
pub use font::{FaceError, Font, FontError};
pub use frames::{frame_file_name, FRAME_DIGITS};
pub use mask::Mask;
pub use morph::{chain_endpoints, group_by_key, group_endpoints, merge_plan, rebase_targets, SameValue};
pub use output::{
    first_existing, pick_source, scene_output_dir, source_candidates, BuiltPath, PathTerm, SourceCandidate,
};
pub use paint::{wrap_index, BlendMode, Factor, FilterQuality, SpreadMode};
pub use pixmap::Pixmap;
pub use signal::{AnyValue, Computed, Signal};
pub use style::{Align, Direction, Easing, FillRule, Justify, LineCap, LineJoin, ShapeKind, TextAlign};
pub use text::{
    chars_of, common_prefix_chars, in_ranges, infinite, insert_at, is_highlighted,
    line_start_char, prefix_chars, resolve_ranges, rewrite_range, string_of, TextPos,
};
