//! Build-gate decisions: the clock-string parser and time-window test
//! of the build window gate, and the attempt counter's verdict, as pure
//! functions from plain values.  Reading the clock or a counter file is
//! the embedding host's affair; nothing here does I/O.

use vstd::prelude::*;

verus! {

/// The byte `-`, separating the parts of a date.
pub const SEP_DASH: u8 = 45;

/// The byte ` `, separating a date from a clock time.
pub const SEP_SPACE: u8 = 32;

/// The byte `:`, separating hours from minutes.
pub const SEP_COLON: u8 = 58;

/// Whether a byte is an ASCII decimal digit.
pub open spec fn is_digit(b: u8) -> bool {
    48 <= b && b <= 57
}

/// Whether every byte of `t` is a digit.
pub open spec fn all_digits(t: Seq<u8>) -> bool {
    forall|j: int| 0 <= j < t.len() ==> is_digit(t[j])
}

/// The number a digit string denotes, most significant digit first.
pub open spec fn digits_val(t: Seq<u8>) -> int
    decreases t.len(),
{
    if t.len() == 0 {
        0
    } else {
        digits_val(t.drop_last()) * 10 + (t.last() - 48)
    }
}

/// The number a byte string denotes: one or more digits and nothing
/// else, with a value that fits in `u32` — or nothing.
pub open spec fn spec_number(t: Seq<u8>) -> Option<u32> {
    if t.len() > 0 && all_digits(t) && digits_val(t) <= u32::MAX {
        Some(digits_val(t) as u32)
    } else {
        None
    }
}

/// A digit string denotes nothing negative.
proof fn lemma_digits_val_nonneg(t: Seq<u8>)
    requires
        all_digits(t),
    ensures
        digits_val(t) >= 0,
    decreases t.len(),
{
    if t.len() > 0 {
        assert(all_digits(t.drop_last()));
        lemma_digits_val_nonneg(t.drop_last());
    }
}

/// Digits appended to a digit string never shrink its value.
proof fn lemma_digits_val_prefix(t: Seq<u8>, j: int)
    requires
        all_digits(t),
        0 <= j <= t.len(),
    ensures
        digits_val(t.take(j)) <= digits_val(t),
    decreases t.len() - j,
{
    if j == t.len() {
        assert(t.take(j) =~= t);
    } else {
        lemma_digits_val_prefix(t, j + 1);
        assert(t.take(j + 1).drop_last() =~= t.take(j));
        assert(t.take(j + 1).last() == t[j]);
        assert(all_digits(t.take(j)));
        lemma_digits_val_nonneg(t.take(j));
        assert(digits_val(t.take(j + 1)) == digits_val(t.take(j)) * 10 + (t[j] - 48));
        assert(digits_val(t.take(j)) <= digits_val(t.take(j + 1)));
    }
}

/// Reads a decimal number: exactly `spec_number` of the bytes.
#[verifier::loop_isolation(false)]
pub fn parse_number(s: &[u8]) -> (r: Option<u32>)
    ensures
        r == spec_number(s@),
{
    if s.len() == 0 {
        return None;
    }
    let mut acc: u32 = 0;
    let mut i: usize = 0;
    while i < s.len()
        invariant
            i <= s@.len(),
            all_digits(s@.take(i as int)),
            acc == digits_val(s@.take(i as int)),
        decreases s@.len() - i,
    {
        let b = s[i];
        if b < 48 || b > 57 {
            proof {
                assert(!is_digit(s@[i as int]));
            }
            return None;
        }
        let d = (b - 48) as u32;
        proof {
            assert(s@.take(i + 1).drop_last() =~= s@.take(i as int));
            assert(s@.take(i + 1).last() == s@[i as int]);
            assert(all_digits(s@.take(i + 1)));
            lemma_digits_val_nonneg(s@.take(i as int));
        }
        if acc > (u32::MAX - d) / 10 {
            proof {
                assert(digits_val(s@.take(i + 1)) == acc * 10 + d);
                assert(acc * 10 + d > u32::MAX) by (nonlinear_arith)
                    requires
                        acc > (u32::MAX - d) / 10,
                        d <= 9,
                ;
                if all_digits(s@) {
                    lemma_digits_val_prefix(s@, i + 1);
                }
            }
            return None;
        }
        acc = acc * 10 + d;
        i = i + 1;
    }
    proof {
        assert(s@.take(s@.len() as int) =~= s@);
        lemma_digits_val_nonneg(s@);
    }
    Some(acc)
}

/// The positions at which `sep` occurs in `t`, in increasing order.
pub open spec fn positions_of(t: Seq<u8>, sep: u8) -> Seq<int>
    decreases t.len(),
{
    if t.len() == 0 {
        Seq::empty()
    } else if t.last() == sep {
        positions_of(t.drop_last(), sep).push(t.len() - 1)
    } else {
        positions_of(t.drop_last(), sep)
    }
}

/// Separator positions lie within the string and increase strictly.
proof fn lemma_positions_sorted(t: Seq<u8>, sep: u8)
    ensures
        forall|k: int|
            0 <= k < positions_of(t, sep).len() ==> 0 <= #[trigger] positions_of(t, sep)[k]
                < t.len(),
        forall|k1: int, k2: int|
            0 <= k1 < k2 < positions_of(t, sep).len() ==> #[trigger] positions_of(t, sep)[k1]
                < #[trigger] positions_of(t, sep)[k2],
    decreases t.len(),
{
    if t.len() > 0 {
        lemma_positions_sorted(t.drop_last(), sep);
        let ps = positions_of(t.drop_last(), sep);
        let full = positions_of(t, sep);
        assert(forall|k: int| 0 <= k < ps.len() ==> 0 <= #[trigger] ps[k] < t.len() - 1);
        if t.last() == sep {
            assert(full == ps.push(t.len() - 1));
            assert(forall|k: int|
                0 <= k < full.len() ==> 0 <= #[trigger] full[k] < t.len());
            assert(forall|k1: int, k2: int|
                0 <= k1 < k2 < full.len() ==> #[trigger] full[k1] < #[trigger] full[k2]);
        } else {
            assert(full == ps);
        }
    }
}

/// The positions seen as mathematical integers.
spec fn idx_view(os: Seq<usize>) -> Seq<int> {
    Seq::new(os.len(), |k: int| os[k] as int)
}

/// Collects the positions of `sep`: exactly `positions_of` the bytes.
#[verifier::loop_isolation(false)]
fn find_positions(s: &[u8], sep: u8) -> (r: Vec<usize>)
    ensures
        idx_view(r@) == positions_of(s@, sep),
{
    let mut r: Vec<usize> = Vec::new();
    let mut i: usize = 0;
    proof {
        assert(idx_view(r@) =~= positions_of(s@.take(0), sep));
    }
    while i < s.len()
        invariant
            i <= s@.len(),
            idx_view(r@) == positions_of(s@.take(i as int), sep),
        decreases s@.len() - i,
    {
        let ghost r0 = r@;
        if s[i] == sep {
            r.push(i);
        }
        proof {
            assert(s@.take(i + 1).drop_last() =~= s@.take(i as int));
            assert(s@.take(i + 1).last() == s@[i as int]);
            if s@[i as int] == sep {
                assert(idx_view(r0.push(i)) =~= idx_view(r0).push(i as int));
            }
        }
        i = i + 1;
    }
    proof {
        assert(s@.take(s@.len() as int) =~= s@);
    }
    r
}

/// A point or bound of the build window: a calendar date — all zero in
/// the time-only form — and a clock time.
#[derive(Clone, Copy, Debug, PartialEq, Eq, Structural)]
pub struct ClockSpec {
    /// Calendar year, or zero in the time-only form.
    pub year: u32,
    /// Calendar month, or zero in the time-only form.
    pub month: u32,
    /// Calendar day, or zero in the time-only form.
    pub day: u32,
    /// Hour of day.
    pub hour: u32,
    /// Minute of hour.
    pub minute: u32,
}

/// Five parsed fields combined: a clock only when every field is one.
pub open spec fn spec_clock_from(
    y: Option<u32>,
    mo: Option<u32>,
    d: Option<u32>,
    h: Option<u32>,
    mi: Option<u32>,
) -> Option<ClockSpec> {
    if y is Some && mo is Some && d is Some && h is Some && mi is Some {
        Some(
            ClockSpec {
                year: y.unwrap(),
                month: mo.unwrap(),
                day: d.unwrap(),
                hour: h.unwrap(),
                minute: mi.unwrap(),
            },
        )
    } else {
        None
    }
}

/// What parsing a clock string yields.
///
/// A string with a `-` anywhere is read as `date time`: one space, a
/// date of three numbers separated by two dashes, and a time of two
/// numbers separated by one colon.  Any other string is read as a bare
/// `hour:minute` with the date fields zero.  Each number is one or more
/// decimal digits fitting in `u32`; anything else yields nothing.
pub open spec fn spec_parse_clock(t: Seq<u8>) -> Option<ClockSpec> {
    if positions_of(t, SEP_DASH).len() > 0 {
        let spaces = positions_of(t, SEP_SPACE);
        if spaces.len() != 1 {
            None
        } else {
            let p = spaces[0];
            let date = t.take(p);
            let time = t.skip(p + 1);
            let dd = positions_of(date, SEP_DASH);
            let cc = positions_of(time, SEP_COLON);
            if dd.len() != 2 || cc.len() != 1 {
                None
            } else {
                spec_clock_from(
                    spec_number(date.take(dd[0])),
                    spec_number(date.subrange(dd[0] + 1, dd[1])),
                    spec_number(date.skip(dd[1] + 1)),
                    spec_number(time.take(cc[0])),
                    spec_number(time.skip(cc[0] + 1)),
                )
            }
        }
    } else {
        let cc = positions_of(t, SEP_COLON);
        if cc.len() != 1 {
            None
        } else {
            spec_clock_from(
                Some(0),
                Some(0),
                Some(0),
                spec_number(t.take(cc[0])),
                spec_number(t.skip(cc[0] + 1)),
            )
        }
    }
}

/// Parses a clock string: exactly `spec_parse_clock` of the bytes.
pub fn parse_clock(s: &[u8]) -> (r: Option<ClockSpec>)
    ensures
        r == spec_parse_clock(s@),
{
    let dashes = find_positions(s, SEP_DASH);
    if dashes.len() > 0 {
        let spaces = find_positions(s, SEP_SPACE);
        if spaces.len() != 1 {
            return None;
        }
        proof {
            lemma_positions_sorted(s@, SEP_SPACE);
        }
        let p = spaces[0];
        let n = s.len();
        proof {
            assert(idx_view(spaces@)[0] == p as int);
            assert(p < n);
        }
        let date = &s[0..p];
        let time = &s[p + 1..n];
        proof {
            assert(date@ =~= s@.take(p as int));
            assert(time@ =~= s@.skip(p + 1));
        }
        let dd = find_positions(date, SEP_DASH);
        let cc = find_positions(time, SEP_COLON);
        if dd.len() != 2 || cc.len() != 1 {
            return None;
        }
        proof {
            lemma_positions_sorted(date@, SEP_DASH);
            lemma_positions_sorted(time@, SEP_COLON);
        }
        let d0 = dd[0];
        let d1 = dd[1];
        let c0 = cc[0];
        proof {
            assert(idx_view(dd@)[0] == d0 as int);
            assert(idx_view(dd@)[1] == d1 as int);
            assert(idx_view(cc@)[0] == c0 as int);
            assert(d0 < d1 < date@.len());
            assert(c0 < time@.len());
        }
        let y = parse_number(&date[0..d0]);
        let mo = parse_number(&date[d0 + 1..d1]);
        let d = parse_number(&date[d1 + 1..date.len()]);
        let h = parse_number(&time[0..c0]);
        let mi = parse_number(&time[c0 + 1..time.len()]);
        proof {
            assert(date@.subrange(0, d0 as int) =~= date@.take(d0 as int));
            assert(time@.subrange(0, c0 as int) =~= time@.take(c0 as int));
            assert(date@.subrange(d1 + 1, date@.len() as int) =~= date@.skip(d1 + 1));
            assert(time@.subrange(c0 + 1, time@.len() as int) =~= time@.skip(c0 + 1));
        }
        if y.is_some() && mo.is_some() && d.is_some() && h.is_some() && mi.is_some() {
            Some(
                ClockSpec {
                    year: y.unwrap(),
                    month: mo.unwrap(),
                    day: d.unwrap(),
                    hour: h.unwrap(),
                    minute: mi.unwrap(),
                },
            )
        } else {
            None
        }
    } else {
        let cc = find_positions(s, SEP_COLON);
        if cc.len() != 1 {
            return None;
        }
        proof {
            lemma_positions_sorted(s@, SEP_COLON);
        }
        let c0 = cc[0];
        let n = s.len();
        proof {
            assert(idx_view(cc@)[0] == c0 as int);
            assert(c0 < n);
        }
        let h = parse_number(&s[0..c0]);
        let mi = parse_number(&s[c0 + 1..n]);
        proof {
            assert(s@.subrange(0, c0 as int) =~= s@.take(c0 as int));
            assert(s@.subrange(c0 + 1, s@.len() as int) =~= s@.skip(c0 + 1));
        }
        if h.is_some() && mi.is_some() {
            Some(
                ClockSpec {
                    year: 0,
                    month: 0,
                    day: 0,
                    hour: h.unwrap(),
                    minute: mi.unwrap(),
                },
            )
        } else {
            None
        }
    }
}

/// The minute of day a clock names.
pub fn clock_minutes(c: &ClockSpec) -> (r: u64)
    ensures
        r == c.hour * 60 + c.minute,
{
    (c.hour as u64) * 60 + (c.minute as u64)
}

/// The minute of day an epoch-second count falls in: hour of day times
/// sixty plus minute of hour.
pub fn current_minutes(epoch_secs: u64) -> (r: u64)
    ensures
        r == ((epoch_secs / 3600) % 24) * 60 + (epoch_secs / 60) % 60,
{
    let hour = (epoch_secs / 3600) % 24;
    let minute = (epoch_secs / 60) % 60;
    hour * 60 + minute
}

/// Whether `now` lies in the window from `start` to `end`, minutes of
/// day: the plain closed range when `start <= end`, and the overnight
/// wrap-around — at or after `start`, or at or before `end` — otherwise.
pub fn window_allows(start: u64, end: u64, now: u64) -> (r: bool)
    ensures
        r == if start <= end {
            start <= now <= end
        } else {
            now >= start || now <= end
        },
{
    if start <= end {
        start <= now && now <= end
    } else {
        now >= start || now <= end
    }
}

/// One more build attempt: the count after it, and whether it is still
/// within the limit.
pub fn counter_verdict(previous: u32, limit: u32) -> (r: (u32, bool))
    requires
        previous < u32::MAX,
    ensures
        r.0 == previous + 1,
        r.1 == (r.0 <= limit),
{
    let next = previous + 1;
    (next, next <= limit)
}

} // verus!
