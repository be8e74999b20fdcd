//! Parsing of the input text: a radius line followed by one
//! comma-separated point per line, all numbers read into fixed-point
//! micro-units of the unit square.

use crate::geometry::Point;
use crate::geometry::SCALE;
use vstd::prelude::*;

verus! {

/// Largest whole part a number literal may carry, so that its scaled
/// value stays far inside `u64`.
pub const WHOLE_MAX: u64 = 9_999_999;

/// An ASCII decimal digit.
pub open spec fn is_digit(b: u8) -> bool {
    48 <= b <= 57
}

/// Blank bytes stripped around a coordinate field: space, tab and
/// carriage return.
pub open spec fn is_blank(b: u8) -> bool {
    b == 32 || b == 9 || b == 13
}

/// Every byte of the sequence is a decimal digit.
pub open spec fn all_digits(s: Seq<u8>) -> bool {
    forall|t: int| 0 <= t < s.len() ==> is_digit(#[trigger] s[t])
}

/// The value of a digit string read in base ten.
pub open spec fn dec_val(s: Seq<u8>) -> int
    decreases s.len(),
{
    if s.len() == 0 {
        0
    } else {
        dec_val(s.drop_last()) * 10 + (s.last() - 48)
    }
}

/// The index of the first occurrence of `b`, or the length if absent.
pub open spec fn first_byte(s: Seq<u8>, b: u8) -> int
    decreases s.len(),
{
    if s.len() == 0 {
        0
    } else if s[0] == b {
        0
    } else {
        1 + first_byte(s.drop_first(), b)
    }
}

/// `first_byte` always lands inside the sequence or just past its end.
pub proof fn lemma_first_byte_bounds(s: Seq<u8>, b: u8)
    ensures
        0 <= first_byte(s, b) <= s.len(),
    decreases s.len(),
{
    if s.len() > 0 && s[0] != b {
        lemma_first_byte_bounds(s.drop_first(), b);
    }
}

/// The characterisation of `first_byte` pins it down: a scan that saw
/// no `b` before `t`, and `b` (or the end) at `t`, found `first_byte`.
pub proof fn lemma_first_byte(s: Seq<u8>, b: u8, t: int)
    requires
        0 <= t <= s.len(),
        forall|u: int| 0 <= u < t ==> s[u] != b,
        t == s.len() || s[t] == b,
    ensures
        first_byte(s, b) == t,
    decreases s.len(),
{
    if s.len() > 0 && t > 0 {
        lemma_first_byte(s.drop_first(), b, t - 1);
    }
}

/// Powers of ten.
pub open spec fn pow10(k: nat) -> int
    decreases k,
{
    if k == 0 {
        1
    } else {
        10 * pow10((k - 1) as nat)
    }
}

/// The digits before the decimal dot (the whole string when no dot).
pub open spec fn whole_digits(s: Seq<u8>) -> Seq<u8> {
    s.take(first_byte(s, 46))
}

/// The digits after the decimal dot (empty when no dot).
pub open spec fn frac_digits(s: Seq<u8>) -> Seq<u8> {
    if first_byte(s, 46) < s.len() {
        s.skip(first_byte(s, 46) + 1)
    } else {
        Seq::empty()
    }
}

/// A well-formed unsigned decimal literal: digits, at most one dot,
/// and at least one digit somewhere.
pub open spec fn valid_decimal(s: Seq<u8>) -> bool {
    &&& all_digits(whole_digits(s))
    &&& all_digits(frac_digits(s))
    &&& whole_digits(s).len() + frac_digits(s).len() >= 1
}

/// The value of the fractional digits in micro-units: the first six
/// digits count; shorter strings are padded with zeros.
pub open spec fn frac_units(fr: Seq<u8>) -> int {
    if fr.len() >= 6 {
        dec_val(fr.take(6))
    } else {
        dec_val(fr) * pow10((6 - fr.len()) as nat)
    }
}

/// The fixed-point value of a decimal literal, in micro-units.
pub open spec fn scaled_value(s: Seq<u8>) -> int {
    dec_val(whole_digits(s)) * SCALE + frac_units(frac_digits(s))
}

/// The value of a digit string is nonnegative, and never shrinks when
/// more digits follow.
proof fn lemma_dec_val_nonneg(s: Seq<u8>)
    requires
        all_digits(s),
    ensures
        0 <= dec_val(s),
    decreases s.len(),
{
    if s.len() > 0 {
        assert(all_digits(s.drop_last()));
        lemma_dec_val_nonneg(s.drop_last());
    }
}

/// A digit-string prefix never exceeds the whole string in value.
proof fn lemma_dec_val_prefix(s: Seq<u8>, t: int)
    requires
        all_digits(s),
        0 <= t <= s.len(),
    ensures
        dec_val(s.take(t)) <= dec_val(s),
    decreases s.len() - t,
{
    if t < s.len() {
        lemma_dec_val_prefix(s, t + 1);
        assert(s.take(t + 1).drop_last() =~= s.take(t));
        assert(all_digits(s.take(t)));
        lemma_dec_val_nonneg(s.take(t));
        assert(dec_val(s.take(t + 1)) == dec_val(s.take(t)) * 10 + (s[t] - 48));
        assert(dec_val(s.take(t)) * 10 >= dec_val(s.take(t))) by (nonlinear_arith)
            requires dec_val(s.take(t)) >= 0,
        ;
    } else {
        assert(s.take(s.len() as int) =~= s);
    }
}

/// Removes one trailing line feed, and a carriage return before it.
pub fn trim_newline(s: &mut Vec<u8>)
    ensures
        final(s)@ == if old(s)@.len() >= 2 && old(s)@.last() == 10
                && old(s)@.drop_last().last() == 13 {
            old(s)@.drop_last().drop_last()
        } else if old(s)@.len() >= 1 && old(s)@.last() == 10 {
            old(s)@.drop_last()
        } else {
            old(s)@
        },
{
    if s.len() >= 1 {
        let last: u8 = s[s.len() - 1];
        if last == 10 {
            s.pop();
            if s.len() >= 1 {
                let prev: u8 = s[s.len() - 1];
                if prev == 13 {
                    s.pop();
                }
            }
        }
    }
}

/// Reads an unsigned decimal literal into fixed-point micro-units.
/// Succeeds exactly on well-formed literals whose whole part is at
/// most `WHOLE_MAX`; fractional digits beyond the sixth are dropped.
pub fn parse_scaled(s: &[u8]) -> (res: Option<u64>)
    ensures
        res.is_some() <==> (valid_decimal(s@) && dec_val(whole_digits(s@)) <= WHOLE_MAX),
        res.is_some() ==> res.unwrap() == scaled_value(s@),
{
    let len: usize = s.len();
    // scan the whole part
    let mut t: usize = 0;
    let mut acc: u64 = 0;
    while t < len && s[t] != 46
        invariant
            len == s@.len(),
            t <= len,
            forall|u: int| 0 <= u < t ==> s@[u] != 46,
            all_digits(s@.take(t as int)),
            acc == dec_val(s@.take(t as int)),
            acc <= WHOLE_MAX,
        decreases len - t,
    {
        let b: u8 = s[t];
        if !(48 <= b && b <= 57) {
            proof {
                // the whole part holds a byte that is not a digit
                let ghost w = whole_digits(s@);
                lemma_first_byte_bounds(s@, 46);
                if first_byte(s@, 46) > t {
                    assert(w[t as int] == s@[t as int]);
                    assert(!is_digit(w[t as int]));
                    assert(!all_digits(w));
                } else {
                    // impossible: a dot or the end would have stopped earlier
                    lemma_first_byte_ge(s@, 46, t as int);
                }
            }
            return Option::None;
        }
        proof {
            assert(s@.take(t + 1).drop_last() =~= s@.take(t as int));
        }
        if acc > (WHOLE_MAX - 9) / 10 {
            // any further digit pushes the whole part beyond the cap
            proof {
                let ghost w = whole_digits(s@);
                lemma_first_byte_ge2(s@, 46, t as int);
                lemma_first_byte_bounds(s@, 46);
                let fb = first_byte(s@, 46);
                assert(t + 1 <= fb);
                if valid_decimal(s@) {
                    assert(w.take(t + 1) =~= s@.take(t + 1));
                    lemma_dec_val_prefix(w, t + 1);
                    assert(dec_val(s@.take(t + 1)) == acc * 10 + (s@[t as int] - 48));
                    assert(acc * 10 >= (WHOLE_MAX - 9) / 10 * 10 + 10) by (nonlinear_arith)
                        requires acc >= (WHOLE_MAX - 9) / 10 + 1,
                    ;
                }
            }
            return Option::None;
        }
        acc = acc * 10 + (b - 48) as u64;
        t += 1;
    }
    proof {
        lemma_first_byte(s@, 46, t as int);
        assert(whole_digits(s@) =~= s@.take(t as int));
    }
    let whole_len: usize = t;
    // scan the fractional part
    let mut fr: usize = 0;
    let mut facc: u64 = 0;
    let fstart: usize = if whole_len < len { whole_len + 1 } else { len };
    let flen: usize = len - fstart;
    while fr < flen
        invariant
            len == s@.len(),
            whole_len == first_byte(s@, 46),
            fstart == if whole_len < len { whole_len + 1int } else { len as int },
            flen == len - fstart,
            flen == frac_digits(s@).len(),
            forall|u: int| 0 <= u < flen ==> frac_digits(s@)[u] == s@[fstart + u],
            fr <= flen,
            all_digits(frac_digits(s@).take(fr as int)),
            fr <= 6 ==> facc == dec_val(frac_digits(s@).take(fr as int)),
            fr > 6 ==> facc == dec_val(frac_digits(s@).take(6)),
            facc < 1_000_000,
        decreases flen - fr,
    {
        let b: u8 = s[fstart + fr];
        if !(48 <= b && b <= 57) {
            proof {
                assert(frac_digits(s@)[fr as int] == b);
                assert(!all_digits(frac_digits(s@)));
            }
            return Option::None;
        }
        proof {
            let fd = frac_digits(s@);
            assert(fd.take(fr + 1).drop_last() =~= fd.take(fr as int));
            if fr < 6 {
                assert(fd.take(fr + 1).last() == fd[fr as int]);
                lemma_dec_val_small(fd.take(fr as int));
                assert(facc <= 99_999);
                assert(facc * 10 + (b - 48) < 1_000_000) by (nonlinear_arith)
                    requires facc <= 99_999, 48 <= b <= 57,
                ;
            }
        }
        if fr < 6 {
            facc = facc * 10 + (b - 48) as u64;
        }
        fr += 1;
    }
    // every byte was checked, so the literal is well-formed iff a digit exists
    if whole_len == 0 && flen == 0 {
        return Option::None;
    }
    // pad short fractions to six digits
    let mut pad: usize = if flen < 6 { 6 - flen } else { 0 };
    let ghost fd = frac_digits(s@);
    proof {
        assert(all_digits(fd.take(flen as int)));
        assert(fd.take(flen as int) =~= fd);
        lemma_frac_units_bound(fd);
        assert(pow10(0) == 1);
        if flen < 6 {
            assert(facc == dec_val(fd));
        }
    }
    while pad > 0
        invariant
            pad <= 6,
            facc * pow10(pad as nat) == frac_units(fd),
            0 <= frac_units(fd) < 1_000_000,
        decreases pad,
    {
        proof {
            lemma_pow10_pos((pad - 1) as nat);
            assert(pow10(pad as nat) == 10 * pow10((pad - 1) as nat));
            assert((facc * 10) * pow10((pad - 1) as nat) == facc * pow10(pad as nat))
                by (nonlinear_arith)
                requires pow10(pad as nat) == 10 * pow10((pad - 1) as nat),
            ;
            assert(facc * 10 <= facc * pow10(pad as nat)) by (nonlinear_arith)
                requires 0 <= facc, 10 <= pow10(pad as nat),
            ;
        }
        facc = facc * 10;
        pad -= 1;
    }
    proof {
        assert(pow10(0) == 1);
        assert(facc == frac_units(fd));
        lemma_dec_val_nonneg(whole_digits(s@));
        assert(acc * (SCALE as int) <= WHOLE_MAX * (SCALE as int)) by (nonlinear_arith)
            requires 0 <= acc <= WHOLE_MAX,
        ;
    }
    Option::Some(acc * SCALE + facc)
}

/// A digit string of at most five digits stays below one hundred
/// thousand.
proof fn lemma_dec_val_small(s: Seq<u8>)
    requires
        all_digits(s),
        s.len() <= 5,
    ensures
        dec_val(s) <= 99_999,
{
    lemma_dec_val_small_helper(s);
    lemma_pow10_le(s.len(), 5);
    assert(pow10(5) == 100_000) by {
        reveal_with_fuel(pow10, 6);
    }
}

/// Powers of ten are monotone in the exponent.
proof fn lemma_pow10_le(a: nat, b: nat)
    requires
        a <= b,
    ensures
        pow10(a) <= pow10(b),
    decreases b,
{
    if a < b {
        lemma_pow10_le(a, (b - 1) as nat);
        lemma_pow10_pos((b - 1) as nat);
    }
}

/// A digit string's value is below ten to its length.
proof fn lemma_dec_val_small_helper(s: Seq<u8>)
    requires
        all_digits(s),
    ensures
        dec_val(s) < pow10(s.len()),
        0 <= dec_val(s),
    decreases s.len(),
{
    if s.len() == 0 {
    } else {
        assert(all_digits(s.drop_last()));
        lemma_dec_val_small_helper(s.drop_last());
        let d = dec_val(s.drop_last());
        assert(d * 10 + (s.last() - 48) < pow10(s.len())) by (nonlinear_arith)
            requires
                0 <= d,
                d < pow10((s.len() - 1) as nat),
                pow10(s.len()) == 10 * pow10((s.len() - 1) as nat),
                s.last() - 48 <= 9,
        ;
    }
}

/// Powers of ten are positive.
proof fn lemma_pow10_pos(k: nat)
    ensures
        1 <= pow10(k),
    decreases k,
{
    if k > 0 {
        lemma_pow10_pos((k - 1) as nat);
    }
}

/// Fractional micro-units stay below one million.
proof fn lemma_frac_units_bound(fr: Seq<u8>)
    requires
        all_digits(fr),
    ensures
        0 <= frac_units(fr) < 1_000_000,
{
    if fr.len() >= 6 {
        assert(all_digits(fr.take(6)));
        lemma_dec_val_small_helper(fr.take(6));
        assert(pow10(6) == 1_000_000) by {
            reveal_with_fuel(pow10, 7);
        }
    } else {
        lemma_dec_val_small_helper(fr);
        lemma_pow10_pos((6 - fr.len()) as nat);
        assert(dec_val(fr) * pow10((6 - fr.len()) as nat) < pow10(fr.len()) * pow10(
            (6 - fr.len()) as nat,
        )) by (nonlinear_arith)
            requires
                0 <= dec_val(fr) < pow10(fr.len()),
                1 <= pow10((6 - fr.len()) as nat),
        ;
        lemma_pow10_mul(fr.len(), (6 - fr.len()) as nat);
        assert(pow10(6) == 1_000_000) by {
            reveal_with_fuel(pow10, 7);
        }
        assert(dec_val(fr) * pow10((6 - fr.len()) as nat) >= 0) by (nonlinear_arith)
            requires
                0 <= dec_val(fr),
                1 <= pow10((6 - fr.len()) as nat),
        ;
    }
}

/// Powers of ten multiply by adding exponents.
proof fn lemma_pow10_mul(a: nat, b: nat)
    ensures
        pow10(a) * pow10(b) == pow10(a + b),
    decreases a,
{
    if a == 0 {
        assert(pow10(0) == 1);
    } else {
        lemma_pow10_mul((a - 1) as nat, b);
        assert((10 * pow10((a - 1) as nat)) * pow10(b) == 10 * (pow10((a - 1) as nat) * pow10(b)))
            by (nonlinear_arith);
    }
}

/// A scan that passed position `t` without meeting `b` bounds
/// `first_byte` from below.
proof fn lemma_first_byte_ge(s: Seq<u8>, b: u8, t: int)
    requires
        0 <= t < s.len(),
        forall|u: int| 0 <= u < t ==> s[u] != b,
        s[t] != b,
    ensures
        first_byte(s, b) > t,
    decreases t,
{
    if t > 0 {
        lemma_first_byte_ge(s.drop_first(), b, t - 1);
    } else {
        lemma_first_byte_bounds(s.drop_first(), b);
    }
}

/// Variant of the bound that admits `b` exactly at `t`.
proof fn lemma_first_byte_ge2(s: Seq<u8>, b: u8, t: int)
    requires
        0 <= t < s.len(),
        forall|u: int| 0 <= u < t ==> s[u] != b,
        s[t] != b,
    ensures
        first_byte(s, b) >= t + 1,
{
    lemma_first_byte_ge(s, b, t);
}

/// Finds the first occurrence of `b`, or the slice's length if absent.
pub fn find_byte(s: &[u8], b: u8) -> (i: usize)
    ensures
        i == first_byte(s@, b),
        0 <= i <= s@.len(),
{
    let len: usize = s.len();
    let mut t: usize = 0;
    while t < len && s[t] != b
        invariant
            len == s@.len(),
            t <= len,
            forall|u: int| 0 <= u < t ==> s@[u] != b,
        decreases len - t,
    {
        t += 1;
    }
    proof {
        lemma_first_byte(s@, b, t as int);
    }
    t
}

/// Number of leading blank bytes.
pub open spec fn lead_blanks(s: Seq<u8>) -> int
    decreases s.len(),
{
    if s.len() == 0 || !is_blank(s[0]) {
        0
    } else {
        1 + lead_blanks(s.drop_first())
    }
}

/// Number of trailing blank bytes.
pub open spec fn trail_blanks(s: Seq<u8>) -> int
    decreases s.len(),
{
    if s.len() == 0 || !is_blank(s.last()) {
        0
    } else {
        1 + trail_blanks(s.drop_last())
    }
}

/// A coordinate field with its surrounding blanks stripped.
pub open spec fn trim_blank(s: Seq<u8>) -> Seq<u8> {
    let u = s.skip(lead_blanks(s));
    u.take(u.len() - trail_blanks(u))
}

proof fn lemma_lead_blanks(s: Seq<u8>, t: int)
    requires
        0 <= t <= s.len(),
        forall|u: int| 0 <= u < t ==> is_blank(#[trigger] s[u]),
        t == s.len() || !is_blank(s[t]),
    ensures
        lead_blanks(s) == t,
    decreases s.len(),
{
    if s.len() > 0 && t > 0 {
        lemma_lead_blanks(s.drop_first(), t - 1);
    }
}

proof fn lemma_trail_blanks(s: Seq<u8>, t: int)
    requires
        0 <= t <= s.len(),
        forall|u: int| t <= u < s.len() ==> is_blank(#[trigger] s[u]),
        t == 0 || !is_blank(s[t - 1]),
    ensures
        trail_blanks(s) == s.len() - t,
    decreases s.len(),
{
    if s.len() > 0 && t < s.len() {
        assert(is_blank(s.last()));
        lemma_trail_blanks(s.drop_last(), t);
    }
}

/// Strips blanks from both ends of a coordinate field.
pub fn trim_blank_slice(s: &[u8]) -> (r: &[u8])
    ensures
        r@ == trim_blank(s@),
{
    let len: usize = s.len();
    let mut lo: usize = 0;
    while lo < len && (s[lo] == 32 || s[lo] == 9 || s[lo] == 13)
        invariant
            len == s@.len(),
            lo <= len,
            forall|u: int| 0 <= u < lo ==> is_blank(#[trigger] s@[u]),
        decreases len - lo,
    {
        lo += 1;
    }
    let mut hi: usize = len;
    while hi > lo && (s[hi - 1] == 32 || s[hi - 1] == 9 || s[hi - 1] == 13)
        invariant
            len == s@.len(),
            lo <= hi <= len,
            forall|u: int| 0 <= u < lo ==> is_blank(#[trigger] s@[u]),
            lo == len || !is_blank(s@[lo as int]),
            forall|u: int| hi <= u < len ==> is_blank(#[trigger] s@[u]),
        decreases hi,
    {
        hi -= 1;
    }
    proof {
        lemma_lead_blanks(s@, lo as int);
        let u = s@.skip(lo as int);
        if hi > lo {
            lemma_trail_blanks(u, hi - lo);
        } else {
            // the rest is all blanks (or empty)
            lemma_trail_blanks(u, 0);
        }
        assert(s@.subrange(lo as int, hi as int) =~= u.take(u.len() - trail_blanks(u)));
    }
    &s[lo..hi]
}

/// A decimal field parses when it is a well-formed literal with its
/// whole part within the cap.
pub open spec fn field_ok(f: Seq<u8>) -> bool {
    valid_decimal(f) && dec_val(whole_digits(f)) <= WHOLE_MAX
}

/// The first comma-separated field of a point line, trimmed.
pub open spec fn x_field(line: Seq<u8>) -> Seq<u8> {
    trim_blank(line.take(first_byte(line, 44)))
}

/// The second comma-separated field of a point line, trimmed.
pub open spec fn y_field(line: Seq<u8>) -> Seq<u8> {
    let rest = line.skip(first_byte(line, 44) + 1);
    trim_blank(rest.take(first_byte(rest, 44)))
}

/// A point line holds a comma and two readable coordinate fields;
/// fields past the second are ignored.
pub open spec fn valid_point_line(line: Seq<u8>) -> bool {
    &&& first_byte(line, 44) < line.len()
    &&& field_ok(x_field(line))
    &&& field_ok(y_field(line))
}

/// The point a well-formed line denotes.
pub open spec fn point_of_line(line: Seq<u8>) -> Point {
    Point { x: scaled_value(x_field(line)) as u64, y: scaled_value(y_field(line)) as u64 }
}

/// Reads one `x, y` line into a point.  Succeeds exactly on lines with
/// a comma whose first two fields are readable decimals.
pub fn parse_point_line(line: &[u8]) -> (res: Option<Point>)
    ensures
        res.is_some() <==> valid_point_line(line@),
        res.is_some() ==> res.unwrap() == point_of_line(line@),
{
    let len: usize = line.len();
    let c1: usize = find_byte(line, 44);
    if c1 == len {
        return Option::None;
    }
    let left: &[u8] = &line[0..c1];
    let rest: &[u8] = &line[c1 + 1..len];
    proof {
        assert(left@ =~= line@.take(c1 as int));
        assert(rest@ =~= line@.skip(c1 + 1));
    }
    let c2: usize = find_byte(rest, 44);
    let right: &[u8] = &rest[0..c2];
    proof {
        assert(right@ =~= rest@.take(c2 as int));
    }
    let lx: &[u8] = trim_blank_slice(left);
    let ly: &[u8] = trim_blank_slice(right);
    let ox: Option<u64> = parse_scaled(lx);
    let oy: Option<u64> = parse_scaled(ly);
    match (ox, oy) {
        (Option::Some(x), Option::Some(y)) => Option::Some(Point { x, y }),
        _ => Option::None,
    }
}

/// The input split at line feeds; always at least one segment, and a
/// trailing line feed leaves one empty final segment.
pub open spec fn split_lines(s: Seq<u8>) -> Seq<Seq<u8>>
    decreases s.len(),
{
    let p = first_byte(s, 10);
    if 0 <= p < s.len() {
        seq![s.take(p)] + split_lines(s.skip(p + 1))
    } else {
        seq![s]
    }
}

/// The bytes the radius is read from: the first segment, with one
/// carriage return stripped when a line feed followed it.
pub open spec fn radius_src(s: Seq<u8>) -> Seq<u8> {
    let p = first_byte(s, 10);
    if p < s.len() {
        let line = s.take(p);
        if line.len() > 0 && line.last() == 13 {
            line.drop_last()
        } else {
            line
        }
    } else {
        s
    }
}

/// One past the last point-line index: segments `1..` carry points,
/// except a final empty segment left by a trailing line feed.
pub open spec fn point_line_end(lines: Seq<Seq<u8>>) -> int {
    if lines.len() >= 2 && lines.last().len() == 0 {
        lines.len() - 1
    } else {
        lines.len() as int
    }
}

/// The fatal input errors of the reader.
#[derive(Clone, Copy, Debug, PartialEq, Eq, Structural)]
pub enum ParseError {
    /// The first line is not a readable decimal radius.
    BadRadius,
    /// The named segment is not a readable `x, y` point line.
    BadPoint(usize),
}

/// The whole input is readable: a decimal radius line, then point
/// lines through the end.
pub open spec fn dataset_ok(s: Seq<u8>) -> bool {
    &&& field_ok(radius_src(s))
    &&& forall|t: int| 1 <= t < point_line_end(split_lines(s))
            ==> valid_point_line(#[trigger] split_lines(s)[t])
}

/// Reads the whole input: the radius from the first line, then one
/// point per line.  Fails fast on the first unreadable line, naming
/// it; a trailing line feed is allowed and adds no point.
pub fn parse_dataset(data: &[u8]) -> (res: Result<(u64, Vec<Point>), ParseError>)
    ensures
        res.is_ok() <==> dataset_ok(data@),
        res == Result::<(u64, Vec<Point>), ParseError>::Err(ParseError::BadRadius)
            <==> !field_ok(radius_src(data@)),
        res.is_ok() ==> res.unwrap().0 == scaled_value(radius_src(data@)),
        res.is_ok() ==> res.unwrap().1@.len() == point_line_end(split_lines(data@)) - 1,
        res.is_ok() ==> forall|t: int| 0 <= t < res.unwrap().1@.len()
            ==> res.unwrap().1@[t] == point_of_line(#[trigger] split_lines(data@)[t + 1]),
        res.is_err() && field_ok(radius_src(data@)) ==> exists|t: int|
            1 <= t < point_line_end(split_lines(data@))
                && !valid_point_line(#[trigger] split_lines(data@)[t])
                && res == Result::<(u64, Vec<Point>), ParseError>::Err(
                    ParseError::BadPoint(t as usize),
                ),
{
    let len: usize = data.len();
    let p0: usize = find_byte(data, 10);
    let rline: &[u8] = &data[0..p0];
    let rsrc: &[u8] = if p0 < len && p0 >= 1 && data[p0 - 1] == 13 {
        &data[0..p0 - 1]
    } else {
        rline
    };
    proof {
        assert(rline@ =~= data@.take(p0 as int));
        assert(rsrc@ =~= radius_src(data@));
    }
    let r: u64 = match parse_scaled(rsrc) {
        Option::Some(v) => v,
        Option::None => {
            return Result::Err(ParseError::BadRadius);
        },
    };
    let mut pts: Vec<Point> = Vec::new();
    let ghost lines = split_lines(data@);
    if p0 == len {
        proof {
            assert(lines =~= seq![data@]);
            assert(point_line_end(lines) == 1);
        }
        return Result::Ok((r, pts));
    }
    let mut pos: usize = p0 + 1;
    let mut lineno: usize = 1;
    proof {
        assert(lines == seq![data@.take(p0 as int)] + split_lines(data@.skip(p0 + 1)));
        assert(lines.take(1) =~= seq![data@.take(p0 as int)]);
        if pos == len {
            assert(data@.skip(pos as int) =~= Seq::<u8>::empty());
            assert(split_lines(Seq::<u8>::empty()) =~= seq![Seq::<u8>::empty()]);
            assert(lines.len() == 2 && lines.last().len() == 0);
        }
    }
    while pos < len
        invariant
            len == data@.len(),
            lines == split_lines(data@),
            1 <= lineno,
            pos <= len,
            lineno <= pos,
            lineno <= lines.len(),
            field_ok(radius_src(data@)),
            r == scaled_value(radius_src(data@)),
            pos < len ==> lines == lines.take(lineno as int) + split_lines(
                data@.skip(pos as int),
            ),
            pos == len ==> point_line_end(lines) == lineno,
            pts@.len() == lineno - 1,
            forall|t: int| 1 <= t < lineno ==> valid_point_line(#[trigger] lines[t]),
            forall|t: int| 0 <= t < pts@.len() ==> pts@[t] == point_of_line(lines[t + 1]),
        decreases len - pos,
    {
        let rest: &[u8] = &data[pos..len];
        let p: usize = find_byte(rest, 10);
        let seg: &[u8] = &rest[0..p];
        proof {
            assert(rest@ =~= data@.skip(pos as int));
            assert(seg@ =~= rest@.take(p as int));
            if p < rest@.len() {
                assert(split_lines(rest@) == seq![rest@.take(p as int)] + split_lines(
                    rest@.skip(p + 1),
                ));
            } else {
                assert(rest@.take(p as int) =~= rest@);
                assert(split_lines(rest@) == seq![rest@]);
            }
            assert(lines[lineno as int] == split_lines(rest@)[0]);
            assert(lines[lineno as int] == seg@);
            assert(lines.len() == lineno + split_lines(rest@).len());
        }
        match parse_point_line(seg) {
            Option::Some(pt) => {
                pts.push(pt);
            },
            Option::None => {
                proof {
                    if p == rest@.len() {
                        assert(lines.len() == lineno + 1);
                        assert(lines.last() == seg@);
                        assert(seg@.len() > 0);
                        assert(point_line_end(lines) == lineno + 1);
                    } else {
                        assert(split_lines(rest@).len() >= 2);
                        assert(point_line_end(lines) >= lines.len() - 1);
                    }
                    assert(1 <= lineno < point_line_end(lines));
                    assert(!valid_point_line(lines[lineno as int]));
                }
                return Result::Err(ParseError::BadPoint(lineno));
            },
        }
        let ghost old_lineno = lineno as int;
        if p == rest.len() {
            pos = len;
            proof {
                assert(lines.len() == old_lineno + 1);
                assert(lines.last() == seg@);
                assert(seg@.len() > 0);
                assert(point_line_end(lines) == old_lineno + 1);
            }
        } else {
            pos = pos + p + 1;
            proof {
                assert(data@.skip(pos as int) =~= rest@.skip(p + 1));
                assert(lines.take(old_lineno + 1) =~= lines.take(old_lineno).push(
                    lines[old_lineno],
                ));
                assert(lines =~= lines.take(old_lineno + 1) + split_lines(
                    data@.skip(pos as int),
                ));
            }
        }
        lineno = lineno + 1;
    }
    proof {
        assert(point_line_end(lines) == lineno);
    }
    Result::Ok((r, pts))
}

} // verus!
