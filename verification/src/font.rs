//! TrueType/OpenType fonts read with `ttf-parser`: loading a face and its
//! metrics in font units (the em size, ascender, descender, glyph advances,
//! and the width of laid-out text).
//!
//! A [`Font`] keeps the font's bytes and the face index. `ttf-parser` parsing
//! is allocation-free and cheap, so every query parses the face again from
//! those bytes: what a query returns is then a function of the bytes, the
//! index and its own arguments.
//!
//! Layout is deliberately minimal: no shaping or kerning, one glyph per
//! `char` (missing characters fall back to `.notdef`, glyph 0), glyphs placed
//! left to right by their horizontal advance, and `\n` as the only line break.

use crate::text::chars_of;
use ttf_parser::FaceParsingError;
use vstd::prelude::*;

verus! {

/// Why `ttf_parser::Face::parse` refuses a face: its `FaceParsingError`.
#[derive(Debug, Clone, Copy, PartialEq, Eq, Structural)]
pub enum FaceError {
    /// A read out of bounds: a malformed font.
    MalformedFont,
    /// The data does not start with a known font magic.
    UnknownMagic,
    /// The face index is past the faces of the collection.
    FaceIndexOutOfBounds,
    /// The `head` table is missing or malformed.
    NoHeadTable,
    /// The `hhea` table is missing or malformed.
    NoHheaTable,
    /// The `maxp` table is missing or malformed.
    NoMaxpTable,
}

/// What `ttf_parser::Face::parse` makes of the bytes and face index: a face,
/// or the reason it refuses one.
pub uninterp spec fn font_parse_outcome(data: Seq<u8>, index: u32) -> Result<(), FaceError>;

/// Whether `ttf_parser::Face::parse` accepts the bytes and face index.
pub open spec fn font_face_parses(data: Seq<u8>, index: u32) -> bool {
    font_parse_outcome(data, index) is Ok
}

/// `Face::units_per_em` of the face parsed from the bytes and index.
pub uninterp spec fn font_units_per_em(data: Seq<u8>, index: u32) -> u16;

/// `Face::ascender` of the face parsed from the bytes and index.
pub uninterp spec fn font_ascender(data: Seq<u8>, index: u32) -> i16;

/// `Face::descender` of the face parsed from the bytes and index.
pub uninterp spec fn font_descender(data: Seq<u8>, index: u32) -> i16;

/// `Face::glyph_index` of a character in the face parsed from the bytes and
/// index (the glyph id's number).
pub uninterp spec fn font_glyph_index(data: Seq<u8>, index: u32, ch: char) -> Option<u16>;

/// `Face::glyph_hor_advance` of a glyph in the face parsed from the bytes and
/// index.
pub uninterp spec fn font_glyph_advance(data: Seq<u8>, index: u32, glyph: u16) -> Option<u16>;

/// Parses the face with `ttf_parser::Face::parse` and reports whether it
/// parsed, with the parser's error (variant for variant) where it did not.
/// Claimed: the outcome is [`font_parse_outcome`] of the bytes and index.
#[verifier::external_body]
fn parse_face(data: &[u8], index: u32) -> (r: Result<(), FaceError>)
    ensures
        r == font_parse_outcome(data@, index),
{
    match ttf_parser::Face::parse(data, index) {
        Ok(_) => Ok(()),
        Err(FaceParsingError::MalformedFont) => Err(FaceError::MalformedFont),
        Err(FaceParsingError::UnknownMagic) => Err(FaceError::UnknownMagic),
        Err(FaceParsingError::FaceIndexOutOfBounds) => Err(FaceError::FaceIndexOutOfBounds),
        Err(FaceParsingError::NoHeadTable) => Err(FaceError::NoHeadTable),
        Err(FaceParsingError::NoHheaTable) => Err(FaceError::NoHheaTable),
        Err(FaceParsingError::NoMaxpTable) => Err(FaceError::NoMaxpTable),
    }
}

/// Parses the face with `Face::parse` and reads `Face::units_per_em`;
/// `None` where the face does not parse. Claimed: the value is the named one,
/// and it is in `16..=16384` (the crate documents that range, and its `head`
/// parser refuses any other value).
#[verifier::external_body]
fn face_units_per_em(data: &[u8], index: u32) -> (r: Option<u16>)
    ensures
        r == (if font_face_parses(data@, index) {
            Some(font_units_per_em(data@, index))
        } else {
            None
        }),
        r matches Some(u) ==> 16 <= u <= 16384,
{
    match ttf_parser::Face::parse(data, index) {
        Ok(face) => Some(face.units_per_em()),
        Err(_) => None,
    }
}

/// Parses the face with `Face::parse` and reads `Face::ascender`; `None`
/// where the face does not parse. Claimed: the value is the named one.
#[verifier::external_body]
fn face_ascender(data: &[u8], index: u32) -> (r: Option<i16>)
    ensures
        r == (if font_face_parses(data@, index) {
            Some(font_ascender(data@, index))
        } else {
            None
        }),
{
    match ttf_parser::Face::parse(data, index) {
        Ok(face) => Some(face.ascender()),
        Err(_) => None,
    }
}

/// Parses the face with `Face::parse` and reads `Face::descender`; `None`
/// where the face does not parse. Claimed: the value is the named one.
#[verifier::external_body]
fn face_descender(data: &[u8], index: u32) -> (r: Option<i16>)
    ensures
        r == (if font_face_parses(data@, index) {
            Some(font_descender(data@, index))
        } else {
            None
        }),
{
    match ttf_parser::Face::parse(data, index) {
        Ok(face) => Some(face.descender()),
        Err(_) => None,
    }
}

/// Parses the face with `Face::parse` and looks `ch` up with
/// `Face::glyph_index`, giving the glyph id's number; `None` where the face
/// does not parse or has no glyph for `ch`. Claimed: the value is the named
/// one.
#[verifier::external_body]
fn face_glyph_index(data: &[u8], index: u32, ch: char) -> (r: Option<u16>)
    ensures
        r == (if font_face_parses(data@, index) {
            font_glyph_index(data@, index, ch)
        } else {
            None
        }),
{
    match ttf_parser::Face::parse(data, index) {
        Ok(face) => match face.glyph_index(ch) {
            Some(id) => Some(id.0),
            None => None,
        },
        Err(_) => None,
    }
}

/// Parses the face with `Face::parse` and reads `Face::glyph_hor_advance` of
/// glyph `glyph`; `None` where the face does not parse or has no advance for
/// the glyph. Claimed: the value is the named one.
#[verifier::external_body]
fn face_glyph_advance(data: &[u8], index: u32, glyph: u16) -> (r: Option<u16>)
    ensures
        r == (if font_face_parses(data@, index) {
            font_glyph_advance(data@, index, glyph)
        } else {
            None
        }),
{
    match ttf_parser::Face::parse(data, index) {
        Ok(face) => face.glyph_hor_advance(ttf_parser::GlyphId(glyph)),
        Err(_) => None,
    }
}

/// The words `ttf-parser` uses for a parse error (its `Display`).
pub open spec fn face_error_text(e: FaceError) -> Seq<char> {
    match e {
        FaceError::MalformedFont => "malformed font"@,
        FaceError::UnknownMagic => "unknown magic"@,
        FaceError::FaceIndexOutOfBounds => "face index is out of bounds"@,
        FaceError::NoHeadTable => "the head table is missing or malformed"@,
        FaceError::NoHheaTable => "the hhea table is missing or malformed"@,
        FaceError::NoMaxpTable => "the maxp table is missing or malformed"@,
    }
}

impl FaceError {
    /// The parser's words for the error.
    pub fn text(&self) -> (s: &'static str)
        ensures
            s@ == face_error_text(*self),
    {
        match self {
            FaceError::MalformedFont => "malformed font",
            FaceError::UnknownMagic => "unknown magic",
            FaceError::FaceIndexOutOfBounds => "face index is out of bounds",
            FaceError::NoHeadTable => "the head table is missing or malformed",
            FaceError::NoHheaTable => "the hhea table is missing or malformed",
            FaceError::NoMaxpTable => "the maxp table is missing or malformed",
        }
    }
}

/// An error returned while loading a [`Font`].
#[derive(Debug, Clone, Copy, PartialEq, Eq, Structural)]
pub enum FontError {
    /// The bytes are not a valid TrueType/OpenType font or collection, or the
    /// collection has no face at the index.
    Parse(FaceError),
}

impl FontError {
    /// A readable message: `failed to parse font: ` and the parser's words.
    pub fn message(&self) -> (s: String)
        ensures
            s@ == "failed to parse font: "@ + match self {
                FontError::Parse(e) => face_error_text(*e),
            },
    {
        match self {
            FontError::Parse(e) => crate::text::concat("failed to parse font: ", e.text()),
        }
    }
}

/// The glyph drawn for `ch`: its own glyph, or `.notdef` (glyph 0) where the
/// face has none.
pub open spec fn glyph_for(data: Seq<u8>, index: u32, ch: char) -> u16 {
    match font_glyph_index(data, index, ch) {
        Some(g) => g,
        None => 0,
    }
}

/// The horizontal advance of `ch` in font units: that of the glyph drawn for
/// it, or zero where the face gives none.
pub open spec fn advance_spec(data: Seq<u8>, index: u32, ch: char) -> int {
    match font_glyph_advance(data, index, glyph_for(data, index, ch)) {
        Some(a) => a as int,
        None => 0,
    }
}

/// After laying out `s`: the widest finished line and the width of the line
/// in progress, in font units.
pub open spec fn layout_widths(data: Seq<u8>, index: u32, s: Seq<char>) -> (int, int)
    decreases s.len(),
{
    if s.len() == 0 {
        (0, 0)
    } else {
        let (widest, current) = layout_widths(data, index, s.drop_last());
        if s.last() == '\n' {
            (if current > widest { current } else { widest }, 0)
        } else {
            (widest, current + advance_spec(data, index, s.last()))
        }
    }
}

/// The width of the widest line of `s` (lines split at `\n`), in font units:
/// the sum of the advances of its characters.
pub open spec fn measure_spec(data: Seq<u8>, index: u32, s: Seq<char>) -> int {
    let (widest, current) = layout_widths(data, index, s);
    if current > widest {
        current
    } else {
        widest
    }
}

/// The summed advances of the characters `s[a..b]`, in font units.
pub open spec fn span_width(data: Seq<u8>, index: u32, s: Seq<char>, a: int, b: int) -> int
    decreases b - a,
{
    if b <= a {
        0
    } else {
        span_width(data, index, s, a, b - 1) + advance_spec(data, index, s[b - 1])
    }
}

/// `s[a..b]` is one line of `s`: no `\n` in it, starting at the start of `s`
/// or just after a `\n`, and ending at the end of `s` or just before one.
pub open spec fn is_line(s: Seq<char>, a: int, b: int) -> bool {
    &&& 0 <= a <= b <= s.len()
    &&& forall|k: int| a <= k < b ==> s[k] != '\n'
    &&& a == 0 || s[a - 1] == '\n'
    &&& b == s.len() || s[b] == '\n'
}

/// Where the last line of `s` starts: just after its last `\n`, or at 0.
pub open spec fn last_line_start(s: Seq<char>) -> int
    decreases s.len(),
{
    if s.len() == 0 {
        0
    } else if s.last() == '\n' {
        s.len() as int
    } else {
        last_line_start(s.drop_last())
    }
}

proof fn lemma_span_width_nonneg(data: Seq<u8>, index: u32, s: Seq<char>, a: int, b: int)
    ensures
        span_width(data, index, s, a, b) >= 0,
    decreases b - a,
{
    if b > a {
        lemma_span_width_nonneg(data, index, s, a, b - 1);
    }
}

/// Widths of spans before the last character do not see it.
proof fn lemma_span_width_prefix(data: Seq<u8>, index: u32, s: Seq<char>, a: int, b: int)
    requires
        s.len() > 0,
        0 <= a,
        b < s.len(),
    ensures
        span_width(data, index, s, a, b) == span_width(data, index, s.drop_last(), a, b),
    decreases b - a,
{
    if b > a {
        lemma_span_width_prefix(data, index, s, a, b - 1);
        assert(s.drop_last()[b - 1] == s[b - 1]);
    }
}

/// The last line of `s` starts at [`last_line_start`].
proof fn lemma_last_line(s: Seq<char>, a: int)
    requires
        0 <= a <= s.len(),
        forall|k: int| a <= k < s.len() ==> s[k] != '\n',
        a == 0 || s[a - 1] == '\n',
    ensures
        a == last_line_start(s),
        0 <= last_line_start(s) <= s.len(),
    decreases s.len(),
{
    if s.len() > 0 {
        let t = s.drop_last();
        if s.last() == '\n' {
            if a < s.len() {
                assert(s[s.len() - 1] != '\n');
            }
        } else {
            assert(a < s.len());
            if a > 0 {
                assert(t[a - 1] == s[a - 1]);
            }
            lemma_last_line(t, a);
        }
    }
}

/// What [`layout_widths`] keeps while it runs: the line in progress is the
/// last line, and the widest finished line is the widest line that a `\n`
/// ended (`0` when none did).
proof fn lemma_layout_widths(data: Seq<u8>, index: u32, s: Seq<char>)
    ensures
        ({
            let (w, c) = layout_widths(data, index, s);
            let st = last_line_start(s);
            &&& is_line(s, st, s.len() as int)
            &&& c == span_width(data, index, s, st, s.len() as int)
            &&& w >= 0
            &&& forall|a: int, b: int|
                #![trigger is_line(s, a, b)]
                is_line(s, a, b) && b < s.len() ==> w >= span_width(data, index, s, a, b)
            &&& w == 0 || exists|a: int, b: int|
                #![trigger is_line(s, a, b)]
                is_line(s, a, b) && b < s.len() && span_width(data, index, s, a, b) == w
        }),
    decreases s.len(),
{
    if s.len() > 0 {
        let t = s.drop_last();
        let x = s.last();
        let n = t.len() as int;
        lemma_layout_widths(data, index, t);
        let (w, c) = layout_widths(data, index, t);
        let st = last_line_start(t);
        assert forall|a: int, b: int| #![trigger is_line(s, a, b)] is_line(s, a, b) && b < n implies is_line(t, a, b)
            && span_width(data, index, s, a, b) == span_width(data, index, t, a, b) by {
            lemma_span_width_prefix(data, index, s, a, b);
            if a > 0 {
                assert(t[a - 1] == s[a - 1]);
            }
            assert(t[b] == s[b]);
        }
        assert forall|a: int, b: int| #![trigger is_line(t, a, b)] is_line(t, a, b) && b < n implies is_line(s, a, b)
            && span_width(data, index, s, a, b) == span_width(data, index, t, a, b) by {
            lemma_span_width_prefix(data, index, s, a, b);
            assert forall|k: int| a <= k < b implies s[k] != '\n' by {
                assert(t[k] == s[k]);
            }
            if a > 0 {
                assert(t[a - 1] == s[a - 1]);
            }
            assert(t[b] == s[b]);
        }
        lemma_span_width_prefix(data, index, s, st, n);
        if x == '\n' {
            let (w2, c2) = layout_widths(data, index, s);
            assert(is_line(s, st, n)) by {
                if st > 0 {
                    assert(t[st - 1] == s[st - 1]);
                }
                assert forall|k: int| st <= k < n implies s[k] != '\n' by {
                    assert(t[k] == s[k]);
                }
            }
            assert forall|a: int, b: int|
                #![trigger is_line(s, a, b)]
                is_line(s, a, b) && b < s.len() implies w2 >= span_width(data, index, s, a, b) by {
                if b == n {
                    assert forall|k: int| a <= k < t.len() implies t[k] != '\n' by {
                        assert(t[k] == s[k]);
                    }
                    if a > 0 {
                        assert(t[a - 1] == s[a - 1]);
                    }
                    lemma_last_line(t, a);
                } else {
                    assert(is_line(t, a, b));
                }
            }
            if c > w {
                assert(is_line(s, st, n) && n < s.len() && span_width(data, index, s, st, n) == w2);
            } else if w != 0 {
                let (a, b) = choose|a: int, b: int|
                    #![trigger is_line(t, a, b)]
                    is_line(t, a, b) && b < t.len() && span_width(data, index, t, a, b) == w;
                assert(is_line(s, a, b));
            }
        } else {
            let (w2, c2) = layout_widths(data, index, s);
            assert(is_line(s, st, s.len() as int)) by {
                if st > 0 {
                    assert(t[st - 1] == s[st - 1]);
                }
                assert forall|k: int| st <= k < s.len() implies s[k] != '\n' by {
                    if k < n {
                        assert(t[k] == s[k]);
                    }
                }
            }
            assert(c2 == span_width(data, index, s, st, s.len() as int));
            assert forall|a: int, b: int|
                #![trigger is_line(s, a, b)]
                is_line(s, a, b) && b < s.len() implies w2 >= span_width(data, index, s, a, b) by {
                assert(b != n);
                assert(is_line(t, a, b));
            }
            if w != 0 {
                let (a, b) = choose|a: int, b: int|
                    #![trigger is_line(t, a, b)]
                    is_line(t, a, b) && b < t.len() && span_width(data, index, t, a, b) == w;
                assert(is_line(s, a, b));
            }
        }
    } else {
        assert(is_line(s, 0, 0));
    }
}

/// The width of a text is that of its widest line: at least the summed
/// advances of every line (the pieces between `\n`s), and equal to those of
/// one of them.
pub proof fn lemma_measure_is_widest_line(data: Seq<u8>, index: u32, s: Seq<char>)
    ensures
        forall|a: int, b: int|
            #![trigger is_line(s, a, b)]
            is_line(s, a, b) ==> measure_spec(data, index, s) >= span_width(data, index, s, a, b),
        exists|a: int, b: int|
            #![trigger is_line(s, a, b)]
            is_line(s, a, b) && measure_spec(data, index, s) == span_width(data, index, s, a, b),
{
    lemma_layout_widths(data, index, s);
    let (w, c) = layout_widths(data, index, s);
    let st = last_line_start(s);
    let n = s.len() as int;
    assert forall|a: int, b: int|
        #![trigger is_line(s, a, b)]
        is_line(s, a, b) implies measure_spec(data, index, s) >= span_width(data, index, s, a, b) by {
        if b == n {
            lemma_last_line(s, a);
        }
    }
    lemma_span_width_nonneg(data, index, s, st, n);
    if c >= w {
        assert(is_line(s, st, n));
    } else {
        let (a, b) = choose|a: int, b: int|
            #![trigger is_line(s, a, b)]
            is_line(s, a, b) && b < s.len() && span_width(data, index, s, a, b) == w;
        assert(is_line(s, a, b));
    }
}

/// The pen after laying out `s`, in font units: `(line, x)`, where each
/// `\n` moves to the start of the next line and every other character
/// advances `x` by its advance.
pub open spec fn pen_after(data: Seq<u8>, index: u32, s: Seq<char>) -> (int, int)
    decreases s.len(),
{
    if s.len() == 0 {
        (0, 0)
    } else {
        let (line, x) = pen_after(data, index, s.drop_last());
        if s.last() == '\n' {
            (line + 1, 0)
        } else {
            (line, x + advance_spec(data, index, s.last()))
        }
    }
}

/// Where the pen stands after `s`: on the line numbered by how many `\n`s
/// `s` holds, at the summed advances of the characters of that last line.
pub proof fn lemma_pen_position(data: Seq<u8>, index: u32, s: Seq<char>)
    ensures
        pen_after(data, index, s).0 == s.filter(|c: char| c == '\n').len(),
        pen_after(data, index, s).1 == span_width(data, index, s, last_line_start(s), s.len() as int),
        is_line(s, last_line_start(s), s.len() as int),
    decreases s.len(),
{
    reveal(Seq::filter);
    if s.len() == 0 {
        assert(is_line(s, 0, 0));
    } else {
        let t = s.drop_last();
        let n = t.len() as int;
        lemma_pen_position(data, index, t);
        let st = last_line_start(t);
        assert(s.filter(|c: char| c == '\n') == if s.last() == '\n' {
            t.filter(|c: char| c == '\n').push(s.last())
        } else {
            t.filter(|c: char| c == '\n')
        });
        lemma_span_width_prefix(data, index, s, st, n);
        if s.last() != '\n' {
            assert(is_line(s, st, s.len() as int)) by {
                if st > 0 {
                    assert(t[st - 1] == s[st - 1]);
                }
                assert forall|k: int| st <= k < s.len() implies s[k] != '\n' by {
                    if k < n {
                        assert(t[k] == s[k]);
                    }
                }
            }
        }
    }
}

/// A parsed font face, kept as the font's bytes and the face index.
pub struct Font<'a> {
    data: &'a [u8],
    index: u32,
}

impl<'a> Font<'a> {
    /// The font's bytes.
    pub closed spec fn bytes(&self) -> Seq<u8> {
        self.data@
    }

    /// The face index in a collection (`0` for a single-face file).
    pub closed spec fn face_index(&self) -> u32 {
        self.index
    }

    /// Every font holds bytes that parse as a face at its index.
    #[verifier::type_invariant]
    spec fn parses(&self) -> bool {
        font_face_parses(self.data@, self.index)
    }

    /// Parses the first face of a font file (`.ttf`/`.otf`).
    pub fn from_slice(data: &'a [u8]) -> (r: Result<Font<'a>, FontError>)
        ensures
            r is Ok <==> font_face_parses(data@, 0),
            r matches Ok(f) ==> f.bytes() == data@ && f.face_index() == 0,
            r matches Err(FontError::Parse(e)) ==> font_parse_outcome(data@, 0) == Err::<(), FaceError>(e),
    {
        Self::from_collection(data, 0)
    }

    /// Parses the face at `index` of a font collection (`.ttc`); `0` for a
    /// single-face file.
    pub fn from_collection(data: &'a [u8], index: u32) -> (r: Result<Font<'a>, FontError>)
        ensures
            r is Ok <==> font_face_parses(data@, index),
            r matches Ok(f) ==> f.bytes() == data@ && f.face_index() == index,
            r matches Err(FontError::Parse(e)) ==> font_parse_outcome(data@, index) == Err::<(), FaceError>(e),
    {
        match parse_face(data, index) {
            Ok(()) => Ok(Font { data, index }),
            Err(e) => Err(FontError::Parse(e)),
        }
    }

    /// The font's bytes, as given when it was loaded.
    pub fn data(&self) -> (d: &'a [u8])
        ensures
            d@ == self.bytes(),
    {
        self.data
    }

    /// The face index, as given when the font was loaded.
    pub fn index(&self) -> (i: u32)
        ensures
            i == self.face_index(),
    {
        self.index
    }

    /// The size of the design grid in font units: the denominator that scales
    /// outlines and metrics to a pixel size.
    pub fn units_per_em(&self) -> (u: u16)
        ensures
            u == font_units_per_em(self.bytes(), self.face_index()),
            16 <= u <= 16384,
    {
        proof {
            use_type_invariant(self);
        }
        match face_units_per_em(self.data, self.index) {
            Some(u) => u,
            None => 16,
        }
    }

    /// The distance from the baseline up to the ascender, in font units.
    pub fn ascender_units(&self) -> (a: i16)
        ensures
            a == font_ascender(self.bytes(), self.face_index()),
    {
        proof {
            use_type_invariant(self);
        }
        match face_ascender(self.data, self.index) {
            Some(a) => a,
            None => 0,
        }
    }

    /// The distance from the baseline to the descender, in font units
    /// (negative below the baseline).
    pub fn descender_units(&self) -> (d: i16)
        ensures
            d == font_descender(self.bytes(), self.face_index()),
    {
        proof {
            use_type_invariant(self);
        }
        match face_descender(self.data, self.index) {
            Some(d) => d,
            None => 0,
        }
    }

    /// The distance between successive baselines in font units: ascender
    /// minus descender.
    pub fn line_height_units(&self) -> (h: i32)
        ensures
            h == font_ascender(self.bytes(), self.face_index()) - font_descender(
                self.bytes(),
                self.face_index(),
            ),
    {
        let a = self.ascender_units() as i32;
        let d = self.descender_units() as i32;
        a - d
    }

    /// The glyph drawn for `ch`: its own, or `.notdef` (glyph 0).
    pub fn glyph_for(&self, ch: char) -> (g: u16)
        ensures
            g == glyph_for(self.bytes(), self.face_index(), ch),
    {
        proof {
            use_type_invariant(self);
        }
        match face_glyph_index(self.data, self.index, ch) {
            Some(g) => g,
            None => 0,
        }
    }

    /// The horizontal advance of `ch` in font units; characters without a
    /// glyph advance by `.notdef`, and a glyph without an advance by zero.
    pub fn advance_units(&self, ch: char) -> (a: u16)
        ensures
            a as int == advance_spec(self.bytes(), self.face_index(), ch),
    {
        proof {
            use_type_invariant(self);
        }
        let g = self.glyph_for(ch);
        match face_glyph_advance(self.data, self.index, g) {
            Some(a) => a,
            None => 0,
        }
    }

    /// Where each character of `text` is placed, in font units: its pen
    /// offset from the start of its line and its line number (`\n` starts
    /// a new line; a `\n` itself sits at the end of its line).
    pub fn layout_units(&self, text: &str) -> (pens: Vec<(u128, usize)>)
        ensures
            pens@.len() == text@.len(),
            forall|k: int|
                0 <= k < text@.len() ==> (#[trigger] pens@[k].0 as int, pens@[k].1 as int) == (
                    pen_after(self.bytes(), self.face_index(), text@.take(k)).1,
                    pen_after(self.bytes(), self.face_index(), text@.take(k)).0,
                ),
    {
        let chars = chars_of(text);
        let n = chars.len();
        let mut pens: Vec<(u128, usize)> = Vec::new();
        let mut line: usize = 0;
        let mut x: u128 = 0;
        let mut i: usize = 0;
        while i < n
            invariant
                n == chars@.len(),
                chars@ == text@,
                0 <= i <= n,
                pens@.len() == i,
                (line as int, x as int) == pen_after(self.bytes(), self.face_index(), chars@.take(i as int)),
                line <= i,
                x <= 65535 * i,
                forall|k: int|
                    0 <= k < i ==> (#[trigger] pens@[k].0 as int, pens@[k].1 as int) == (
                        pen_after(self.bytes(), self.face_index(), text@.take(k)).1,
                        pen_after(self.bytes(), self.face_index(), text@.take(k)).0,
                    ),
            decreases n - i,
        {
            let ch = chars[i];
            pens.push((x, line));
            assert(chars@.take(i + 1).drop_last() == chars@.take(i as int));
            assert(chars@.take(i + 1).last() == ch);
            if ch == '\n' {
                line = line + 1;
                x = 0;
            } else {
                let a = self.advance_units(ch);
                assert(65535 * i + 65535 <= 65535 * (i + 1));
                x = x + a as u128;
            }
            i += 1;
        }
        pens
    }

    /// The width of the widest line of `text` in font units: the sum of the
    /// advances of its characters, lines split at `\n`, no kerning.
    pub fn measure_units(&self, text: &str) -> (w: u128)
        ensures
            w as int == measure_spec(self.bytes(), self.face_index(), text@),
    {
        let chars = chars_of(text);
        let n = chars.len();
        let mut widest: u128 = 0;
        let mut current: u128 = 0;
        let mut i: usize = 0;
        while i < n
            invariant
                n == chars@.len(),
                chars@ == text@,
                0 <= i <= n,
                (widest as int, current as int) == layout_widths(
                    self.bytes(),
                    self.face_index(),
                    chars@.take(i as int),
                ),
                widest <= 65535 * i,
                current <= 65535 * i,
            decreases n - i,
        {
            let ch = chars[i];
            assert(chars@.take(i + 1).drop_last() == chars@.take(i as int));
            assert(chars@.take(i + 1).last() == ch);
            if ch == '\n' {
                if current > widest {
                    widest = current;
                }
                current = 0;
            } else {
                let a = self.advance_units(ch);
                assert(65535 * i + 65535 <= 65535 * (i + 1));
                current = current + a as u128;
            }
            i += 1;
        }
        assert(chars@.take(n as int) == chars@);
        if current > widest {
            current
        } else {
            widest
        }
    }
}

} // verus!
