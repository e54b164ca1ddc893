//! Names of rendered frames: `000001.png`, `000002.png`, … numbered from one
//! and zero-padded to [`FRAME_DIGITS`] digits, wider where the number needs it.

use crate::text::string_of;
use vstd::prelude::*;

verus! {

/// The least number of digits in a frame name.
pub const FRAME_DIGITS: usize = 6;

/// The decimal digit `d` (`0..=9`) as a character.
pub open spec fn digit_char(d: int) -> char {
    (48 + d) as char
}

/// The decimal digits of `n`, most significant first, without leading zeros
/// (`0` is the single digit `'0'`).
pub open spec fn decimal_digits(n: nat) -> Seq<char>
    decreases n,
{
    if n < 10 {
        seq![digit_char(n as int)]
    } else {
        decimal_digits(n / 10).push(digit_char((n % 10) as int))
    }
}

/// `n` in decimal, padded on the left with `'0'` to at least `width` digits.
pub open spec fn zero_padded(n: nat, width: nat) -> Seq<char> {
    let d = decimal_digits(n);
    if d.len() >= width {
        d
    } else {
        Seq::new((width - d.len()) as nat, |i: int| '0') + d
    }
}

/// The file name of the frame at `index` (counted from zero): its number
/// `index + 1`, zero-padded, then `.png`.
pub open spec fn frame_name_spec(index: nat) -> Seq<char> {
    zero_padded(index + 1, FRAME_DIGITS as nat) + seq!['.', 'p', 'n', 'g']
}

/// The number that a string of decimal digits spells, most significant
/// digit first (the empty string spells `0`).
pub open spec fn decimal_value(ds: Seq<char>) -> int
    decreases ds.len(),
{
    if ds.len() == 0 {
        0
    } else {
        decimal_value(ds.drop_last()) * 10 + (ds.last() as int - '0' as int)
    }
}

/// Every character is an ASCII decimal digit.
pub open spec fn all_digits(ds: Seq<char>) -> bool {
    forall|k: int| 0 <= k < ds.len() ==> '0' <= #[trigger] ds[k] <= '9'
}

/// The character of digit `d` is the ASCII digit `d`.
proof fn lemma_digit_char_value(d: int)
    requires
        0 <= d < 10,
    ensures
        digit_char(d) as int == '0' as int + d,
        '0' <= digit_char(d) <= '9',
{
    assert(((48 + d) as char) as int == 48 + d);
}

/// The digits of `n` are ASCII decimal digits that spell `n`.
pub proof fn lemma_decimal_digits_spell(n: nat)
    ensures
        all_digits(decimal_digits(n)),
        decimal_value(decimal_digits(n)) == n,
    decreases n,
{
    let ds = decimal_digits(n);
    if n < 10 {
        assert(ds.drop_last() =~= Seq::<char>::empty());
        lemma_digit_char_value(n as int);
        assert(ds.last() == digit_char(n as int));
        assert(decimal_value(ds) == decimal_value(ds.drop_last()) * 10 + (ds.last() as int - '0' as int));
        assert(decimal_value(Seq::<char>::empty()) == 0);
    } else {
        lemma_decimal_digits_spell(n / 10);
        let hi = decimal_digits(n / 10);
        assert(ds.drop_last() =~= hi);
        lemma_digit_char_value((n % 10) as int);
        assert((n / 10) * 10 + n % 10 == n) by (nonlinear_arith);
        assert(ds.last() == digit_char((n % 10) as int));
        assert(decimal_value(ds) == decimal_value(hi) * 10 + (ds.last() as int - '0' as int));
        assert forall|k: int| 0 <= k < ds.len() implies '0' <= #[trigger] ds[k] <= '9' by {
            if k < hi.len() {
                assert(ds[k] == hi[k]);
            }
        }
    }
}

/// Leading zeros do not change the number.
proof fn lemma_leading_zeros(z: nat, ds: Seq<char>)
    ensures
        decimal_value(Seq::new(z, |i: int| '0') + ds) == decimal_value(ds),
    decreases ds.len(),
{
    let zs = Seq::new(z, |i: int| '0');
    if ds.len() == 0 {
        assert(zs + ds =~= zs);
        lemma_zeros_spell_zero(z);
    } else {
        lemma_leading_zeros(z, ds.drop_last());
        assert((zs + ds).drop_last() =~= zs + ds.drop_last());
    }
}

proof fn lemma_zeros_spell_zero(z: nat)
    ensures
        decimal_value(Seq::new(z, |i: int| '0')) == 0,
    decreases z,
{
    if z > 0 {
        lemma_zeros_spell_zero((z - 1) as nat);
        assert(Seq::new(z, |i: int| '0').drop_last() =~= Seq::new((z - 1) as nat, |i: int| '0'));
    }
}

/// The name of frame `index` is a string of at least [`FRAME_DIGITS`]
/// decimal digits spelling `index + 1`, then `.png`; so frames at
/// different indices get different names.
pub proof fn lemma_frame_name_spells_number(index: nat, other: nat)
    ensures
        ({
            let name = frame_name_spec(index);
            let digits = name.take(name.len() - 4);
            &&& name.len() >= FRAME_DIGITS + 4
            &&& name.skip(name.len() - 4) == seq!['.', 'p', 'n', 'g']
            &&& all_digits(digits)
            &&& decimal_value(digits) == index + 1
        }),
        frame_name_spec(index) == frame_name_spec(other) ==> index == other,
{
    lemma_number_in_name(index);
    lemma_number_in_name(other);
}

proof fn lemma_number_in_name(index: nat)
    ensures
        ({
            let name = frame_name_spec(index);
            let digits = name.take(name.len() - 4);
            &&& name.len() >= FRAME_DIGITS + 4
            &&& name.skip(name.len() - 4) == seq!['.', 'p', 'n', 'g']
            &&& all_digits(digits)
            &&& decimal_value(digits) == index + 1
        }),
{
    let n = index + 1;
    let d = decimal_digits(n);
    lemma_decimal_digits_spell(n);
    let padded = zero_padded(n, FRAME_DIGITS as nat);
    let name = frame_name_spec(index);
    assert(name.take(name.len() - 4) =~= padded);
    assert(name.skip(name.len() - 4) =~= seq!['.', 'p', 'n', 'g']);
    if d.len() < FRAME_DIGITS {
        let z = (FRAME_DIGITS - d.len()) as nat;
        lemma_leading_zeros(z, d);
        assert forall|k: int| 0 <= k < padded.len() implies '0' <= #[trigger] padded[k] <= '9' by {
            if k >= z {
                assert(padded[k] == d[k - z]);
            }
        }
    }
}

/// The character of one decimal digit.
fn digit(d: usize) -> (c: char)
    requires
        d < 10,
    ensures
        c == digit_char(d as int),
{
    match d {
        0 => '0',
        1 => '1',
        2 => '2',
        3 => '3',
        4 => '4',
        5 => '5',
        6 => '6',
        7 => '7',
        8 => '8',
        _ => '9',
    }
}

/// Appends the decimal digits of `n` to `out`.
fn push_decimal(out: &mut Vec<char>, n: usize)
    ensures
        final(out)@ == old(out)@ + decimal_digits(n as nat),
    decreases n,
{
    if n >= 10 {
        push_decimal(out, n / 10);
    }
    out.push(digit(n % 10));
}

/// The file name of the frame at `index` (counted from zero), such as
/// `000001.png` for the first frame.
pub fn frame_file_name(index: usize) -> (name: String)
    requires
        index < usize::MAX,
    ensures
        name@ == frame_name_spec(index as nat),
{
    let mut digits: Vec<char> = Vec::new();
    push_decimal(&mut digits, index + 1);
    assert(digits@ == decimal_digits((index + 1) as nat));
    let n = digits.len();
    let pad: usize = if n < FRAME_DIGITS {
        FRAME_DIGITS - n
    } else {
        0
    };
    let mut chars: Vec<char> = Vec::new();
    let mut j: usize = 0;
    while j < pad
        invariant
            j <= pad,
            chars@ == Seq::new(j as nat, |i: int| '0'),
        decreases pad - j,
    {
        chars.push('0');
        assert(chars@ =~= Seq::new((j + 1) as nat, |i: int| '0'));
        j += 1;
    }
    let mut i: usize = 0;
    let ghost pad = chars@;
    while i < digits.len()
        invariant
            0 <= i <= digits.len(),
            chars@ == pad + digits@.take(i as int),
        decreases digits.len() - i,
    {
        chars.push(digits[i]);
        assert(digits@.take(i + 1) == digits@.take(i as int).push(digits@[i as int]));
        i += 1;
    }
    assert(digits@.take(digits@.len() as int) == digits@);
    chars.push('.');
    chars.push('p');
    chars.push('n');
    chars.push('g');
    assert(chars@ =~= frame_name_spec(index as nat));
    string_of(&chars)
}

} // verus!
