//! The moment a sample was taken, as a civil date and time in UTC. Parsing
//! accepts an RFC 3339 timestamp with `Z` or a numeric offset and normalizes
//! it to UTC; rendering always writes the `Z` form, with nanoseconds only
//! when they are nonzero.
use crate::text::{
    all_dec_digits, dec_digit_val, dec_fixed, dec_seq_val, digits_end, digits_end_exec,
    is_dec_digit, is_dec_digit_exec, lemma_dec_fixed_props, lemma_digits_end_bounds, pow_nat,
    push_dec_fixed,
};
use vstd::prelude::*;
use vstd::string::*;

verus! {

/// One instant in UTC, as the calendar shows it.
#[derive(Debug, Clone, Copy, PartialEq, Eq, Structural)]
pub struct Timestamp {
    pub year: u32,
    pub month: u8,
    pub day: u8,
    pub hour: u8,
    pub minute: u8,
    pub second: u8,
    pub nanos: u32,
}

pub open spec fn is_leap(y: nat) -> bool {
    (y % 4 == 0 && y % 100 != 0) || y % 400 == 0
}

pub open spec fn days_in_month(y: nat, m: nat) -> nat {
    if m == 1 || m == 3 || m == 5 || m == 7 || m == 8 || m == 10 || m == 12 {
        31
    } else if m == 4 || m == 6 || m == 9 || m == 11 {
        30
    } else if is_leap(y) {
        29
    } else {
        28
    }
}

impl Timestamp {
    /// A real calendar moment: the day exists in its month, the year has at
    /// most four digits, and time and nanoseconds are in range.
    pub open spec fn valid(self) -> bool {
        self.year <= 9999 && 1 <= self.month <= 12 && 1 <= self.day && self.day as nat
            <= days_in_month(self.year as nat, self.month as nat) && self.hour < 24
            && self.minute < 60 && self.second < 60 && self.nanos < 1_000_000_000
    }
}

/// The RFC 3339 text of a UTC instant, `Z`-suffixed, with exactly nine
/// fraction digits when nanoseconds are nonzero and none otherwise.
pub open spec fn ts_text(t: Timestamp) -> Seq<char> {
    dec_fixed(t.year as nat, 4) + seq!['-'] + dec_fixed(t.month as nat, 2) + seq!['-']
        + dec_fixed(t.day as nat, 2) + seq!['T'] + dec_fixed(t.hour as nat, 2) + seq![':']
        + dec_fixed(t.minute as nat, 2) + seq![':'] + dec_fixed(t.second as nat, 2) + (
    if t.nanos == 0 {
        Seq::<char>::empty()
    } else {
        seq!['.'] + dec_fixed(t.nanos as nat, 9)
    }) + seq!['Z']
}

/// The calendar day before this one, if the calendar does not run out.
pub open spec fn prev_day(y: nat, m: nat, d: nat) -> Option<(nat, nat, nat)> {
    if d > 1 {
        Option::Some((y, m, (d - 1) as nat))
    } else if m > 1 {
        Option::Some((y, (m - 1) as nat, days_in_month(y, (m - 1) as nat)))
    } else if y > 0 {
        Option::Some(((y - 1) as nat, 12, 31))
    } else {
        Option::None
    }
}

/// The calendar day after this one, if it stays within four-digit years.
pub open spec fn next_day(y: nat, m: nat, d: nat) -> Option<(nat, nat, nat)> {
    if d < days_in_month(y, m) {
        Option::Some((y, m, d + 1))
    } else if m < 12 {
        Option::Some((y, m + 1, 1))
    } else if y < 9999 {
        Option::Some((y + 1, 1, 1))
    } else {
        Option::None
    }
}

/// The same instant moved from a local clock to UTC: subtract the offset in
/// minutes, borrowing or carrying at most one day.
pub open spec fn apply_offset(y: nat, m: nat, d: nat, hh: nat, mm: nat, offmin: int) -> Option<
    (nat, nat, nat, nat, nat),
> {
    let tot = hh * 60 + mm - offmin;
    if 0 <= tot < 1440 {
        Option::Some((y, m, d, (tot / 60) as nat, (tot % 60) as nat))
    } else if tot < 0 {
        match prev_day(y, m, d) {
            Option::Some(p) => Option::Some(
                (p.0, p.1, p.2, ((tot + 1440) / 60) as nat, ((tot + 1440) % 60) as nat),
            ),
            Option::None => Option::None,
        }
    } else {
        match next_day(y, m, d) {
            Option::Some(p) => Option::Some(
                (p.0, p.1, p.2, ((tot - 1440) / 60) as nat, ((tot - 1440) % 60) as nat),
            ),
            Option::None => Option::None,
        }
    }
}

pub open spec fn two_digits_at(s: Seq<char>, p: int) -> bool {
    is_dec_digit(s[p]) && is_dec_digit(s[p + 1])
}

pub open spec fn d2(s: Seq<char>, p: int) -> nat {
    dec_digit_val(s[p]) * 10 + dec_digit_val(s[p + 1])
}

pub open spec fn four_digits_at(s: Seq<char>, p: int) -> bool {
    is_dec_digit(s[p]) && is_dec_digit(s[p + 1]) && is_dec_digit(s[p + 2]) && is_dec_digit(
        s[p + 3],
    )
}

pub open spec fn d4(s: Seq<char>, p: int) -> nat {
    ((dec_digit_val(s[p]) * 10 + dec_digit_val(s[p + 1])) * 10 + dec_digit_val(s[p + 2])) * 10
        + dec_digit_val(s[p + 3])
}

/// Whether the first nineteen characters have the shape
/// `YYYY-MM-DDTHH:MM:SS`, with `T` of either case.
pub open spec fn head_shape(s: Seq<char>) -> bool {
    four_digits_at(s, 0) && s[4] == '-' && two_digits_at(s, 5) && s[7] == '-' && two_digits_at(
        s,
        8,
    ) && (s[10] == 'T' || s[10] == 't') && two_digits_at(s, 11) && s[13] == ':'
        && two_digits_at(s, 14) && s[16] == ':' && two_digits_at(s, 17)
}

/// Builds the instant from parsed fields, rejecting impossible dates and
/// times, and normalizing the offset away.
pub open spec fn ts_assemble(
    y: nat,
    mo: nat,
    d: nat,
    hh: nat,
    mm: nat,
    ss: nat,
    nanos: nat,
    offmin: int,
) -> Option<Timestamp> {
    if !(1 <= mo <= 12 && 1 <= d <= days_in_month(y, mo) && hh < 24 && mm < 60 && ss < 60) {
        Option::None
    } else {
        match apply_offset(y, mo, d, hh, mm, offmin) {
            Option::Some(p) => {
                if p.0 <= 9999 {
                    Option::Some(
                        Timestamp {
                            year: p.0 as u32,
                            month: p.1 as u8,
                            day: p.2 as u8,
                            hour: p.3 as u8,
                            minute: p.4 as u8,
                            second: ss as u8,
                            nanos: nanos as u32,
                        },
                    )
                } else {
                    Option::None
                }
            },
            Option::None => Option::None,
        }
    }
}

/// The instant an RFC 3339 text denotes, normalized to UTC; nothing if the
/// text is not a timestamp this codec accepts: four-digit year, at most nine
/// fraction digits, `Z`/`z` or `±HH:MM` offset, no leap second.
pub open spec fn ts_of_text(s: Seq<char>) -> Option<Timestamp> {
    if s.len() < 20 {
        Option::None
    } else if !head_shape(s) {
        Option::None
    } else {
        let frac = s[19] == '.';
        let fr_end = if frac {
            digits_end(s, 20)
        } else {
            19int
        };
        if frac && !(21 <= fr_end <= 29) {
            Option::None
        } else {
            let nanos = if frac {
                dec_seq_val(s.subrange(20, fr_end)) * pow_nat(10, (29 - fr_end) as nat)
            } else {
                0
            };
            let p = fr_end;
            if p >= s.len() {
                Option::None
            } else if s[p] == 'Z' || s[p] == 'z' {
                if p + 1 == s.len() {
                    ts_assemble(d4(s, 0), d2(s, 5), d2(s, 8), d2(s, 11), d2(s, 14), d2(s, 17),
                        nanos, 0)
                } else {
                    Option::None
                }
            } else if s[p] == '+' || s[p] == '-' {
                if p + 6 == s.len() && two_digits_at(s, p + 1) && s[p + 3] == ':'
                    && two_digits_at(s, p + 4) {
                    let oh = d2(s, p + 1);
                    let om = d2(s, p + 4);
                    if oh < 24 && om < 60 {
                        let mag = (oh * 60 + om) as int;
                        let offmin = if s[p] == '+' {
                            mag
                        } else {
                            -mag
                        };
                        ts_assemble(d4(s, 0), d2(s, 5), d2(s, 8), d2(s, 11), d2(s, 14),
                            d2(s, 17), nanos, offmin)
                    } else {
                        Option::None
                    }
                } else {
                    Option::None
                }
            } else {
                Option::None
            }
        }
    }
}

/// Whatever `ts_of_text` accepts is a real calendar moment.
pub proof fn lemma_ts_of_text_valid(s: Seq<char>)
    requires
        ts_of_text(s) is Some,
    ensures
        ts_of_text(s).unwrap().valid(),
{
    if s.len() >= 20 && head_shape(s) {
        let frac = s[19] == '.';
        let fr_end = if frac {
            digits_end(s, 20)
        } else {
            19int
        };
        if !(frac && !(21 <= fr_end <= 29)) {
            let nanos = if frac {
                dec_seq_val(s.subrange(20, fr_end)) * pow_nat(10, (29 - fr_end) as nat)
            } else {
                0
            };
            if frac {
                lemma_digits_end_bounds(s, 20);
                assert forall|k: int| 0 <= k < s.subrange(20, fr_end).len() implies is_dec_digit(
                    #[trigger] s.subrange(20, fr_end)[k],
                ) by {
                    assert(s.subrange(20, fr_end)[k] == s[20 + k]);
                }
                lemma_dec_seq_val_bound(s.subrange(20, fr_end));
                lemma_pow10_mul_bound(
                    dec_seq_val(s.subrange(20, fr_end)),
                    (fr_end - 20) as nat,
                    (29 - fr_end) as nat,
                );
            }
        }
    }
}

proof fn lemma_dec_seq_val_bound(s: Seq<char>)
    requires
        all_dec_digits(s),
    ensures
        dec_seq_val(s) < pow_nat(10, s.len()),
    decreases s.len(),
{
    if s.len() > 0 {
        assert forall|m: int| 0 <= m < s.drop_last().len() implies is_dec_digit(
            #[trigger] s.drop_last()[m],
        ) by {
            assert(s.drop_last()[m] == s[m]);
        }
        lemma_dec_seq_val_bound(s.drop_last());
        assert(is_dec_digit(s.last()));
        assert(dec_digit_val(s.last()) <= 9);
        assert(dec_seq_val(s.drop_last()) * 10 + dec_digit_val(s.last()) < 10 * pow_nat(
            10,
            (s.len() - 1) as nat,
        )) by (nonlinear_arith)
            requires
                dec_seq_val(s.drop_last()) < pow_nat(10, (s.len() - 1) as nat),
                dec_digit_val(s.last()) <= 9,
        ;
    }
}

proof fn lemma_pow10_mul_bound(v: nat, a: nat, b: nat)
    requires
        v < pow_nat(10, a),
        a + b == 9,
    ensures
        v * pow_nat(10, b) < 1_000_000_000,
    decreases a,
{
    lemma_pow10_split(a, b);
    assert(pow_nat(10, 9) == 1_000_000_000) by {
        reveal_with_fuel(pow_nat, 10);
    }
    assert(v * pow_nat(10, b) < pow_nat(10, a) * pow_nat(10, b)) by (nonlinear_arith)
        requires
            v < pow_nat(10, a),
            pow_nat(10, b) >= 1,
    ;
}

proof fn lemma_pow10_split(a: nat, b: nat)
    ensures
        pow_nat(10, a) * pow_nat(10, b) == pow_nat(10, a + b),
        pow_nat(10, b) >= 1,
    decreases a,
{
    if a == 0 {
        lemma_pow10_ge1(b);
        assert(pow_nat(10, 0) == 1);
        assert(a + b == b);
    } else {
        lemma_pow10_split((a - 1) as nat, b);
        assert(pow_nat(10, a) == 10 * pow_nat(10, (a - 1) as nat));
        assert((10 * pow_nat(10, (a - 1) as nat)) * pow_nat(10, b) == 10 * (pow_nat(
            10,
            (a - 1) as nat,
        ) * pow_nat(10, b))) by (nonlinear_arith);
        assert(((a - 1) as nat + b) == (a + b - 1) as nat);
        assert(pow_nat(10, (a - 1) as nat) * pow_nat(10, b) == pow_nat(10, (a + b - 1) as nat));
        assert(pow_nat(10, a + b) == 10 * pow_nat(10, (a + b - 1) as nat));
        assert(pow_nat(10, a) * pow_nat(10, b) == (10 * pow_nat(10, (a - 1) as nat)) * pow_nat(
            10,
            b,
        ));
    }
}

proof fn lemma_pow10_ge1(b: nat)
    ensures
        pow_nat(10, b) >= 1,
    decreases b,
{
    if b > 0 {
        lemma_pow10_ge1((b - 1) as nat);
        assert(10 * pow_nat(10, (b - 1) as nat) >= pow_nat(10, (b - 1) as nat)) by (nonlinear_arith)
            requires
                pow_nat(10, (b - 1) as nat) >= 0,
        ;
    }
}

/// Appends the RFC 3339 text of `t`.
pub fn write_ts(t: &Timestamp, out: &mut Vec<char>)
    requires
        t.valid(),
    ensures
        final(out)@ == old(out)@ + ts_text(*t),
{
    push_dec_fixed(out, t.year, 4);
    out.push('-');
    push_dec_fixed(out, t.month as u32, 2);
    out.push('-');
    push_dec_fixed(out, t.day as u32, 2);
    out.push('T');
    push_dec_fixed(out, t.hour as u32, 2);
    out.push(':');
    push_dec_fixed(out, t.minute as u32, 2);
    out.push(':');
    push_dec_fixed(out, t.second as u32, 2);
    if t.nanos != 0 {
        out.push('.');
        push_dec_fixed(out, t.nanos, 9);
    }
    out.push('Z');
    proof {
        assert(out@ =~= old(out)@ + ts_text(*t));
    }
}

/// Reads the two-digit number at `p`.
fn read_d2(s: &str, p: usize) -> (r: Option<u32>)
    requires
        p + 2 <= s@.len(),
    ensures
        r is Some <==> two_digits_at(s@, p as int),
        r is Some ==> r.unwrap() as nat == d2(s@, p as int),
{
    let n: usize = s.unicode_len();
    let c0: char = s.get_char(p);
    let c1: char = s.get_char(p + 1);
    if is_dec_digit_exec(c0) && is_dec_digit_exec(c1) {
        Some((c0 as u32 - 48) * 10 + (c1 as u32 - 48))
    } else {
        None
    }
}

/// Reads the four-digit number at `p`.
fn read_d4(s: &str, p: usize) -> (r: Option<u32>)
    requires
        p + 4 <= s@.len(),
    ensures
        r is Some <==> four_digits_at(s@, p as int),
        r is Some ==> r.unwrap() as nat == d4(s@, p as int),
{
    let n: usize = s.unicode_len();
    let c0: char = s.get_char(p);
    let c1: char = s.get_char(p + 1);
    let c2: char = s.get_char(p + 2);
    let c3: char = s.get_char(p + 3);
    if is_dec_digit_exec(c0) && is_dec_digit_exec(c1) && is_dec_digit_exec(c2)
        && is_dec_digit_exec(c3) {
        Some((((c0 as u32 - 48) * 10 + (c1 as u32 - 48)) * 10 + (c2 as u32 - 48)) * 10 + (
        c3 as u32 - 48))
    } else {
        None
    }
}

/// Parses an RFC 3339 timestamp, normalized to UTC.
pub fn parse_ts(s: &str) -> (r: Option<Timestamp>)
    ensures
        r == ts_of_text(s@),
        r is Some ==> r.unwrap().valid(),
{
    proof {
        if ts_of_text(s@) is Some {
            lemma_ts_of_text_valid(s@);
        }
    }
    let n: usize = s.unicode_len();
    if n < 20 {
        return None;
    }
    let y = match read_d4(s, 0) {
        Some(v) => v,
        None => {
            return None;
        },
    };
    let mo = match read_d2(s, 5) {
        Some(v) => v,
        None => {
            return None;
        },
    };
    let d = match read_d2(s, 8) {
        Some(v) => v,
        None => {
            return None;
        },
    };
    let hh = match read_d2(s, 11) {
        Some(v) => v,
        None => {
            return None;
        },
    };
    let mm = match read_d2(s, 14) {
        Some(v) => v,
        None => {
            return None;
        },
    };
    let ss = match read_d2(s, 17) {
        Some(v) => v,
        None => {
            return None;
        },
    };
    if !(s.get_char(4) == '-' && s.get_char(7) == '-' && (s.get_char(10) == 'T' || s.get_char(10)
        == 't') && s.get_char(13) == ':' && s.get_char(16) == ':') {
        return None;
    }
    let frac: bool = s.get_char(19) == '.';
    let fr_end: usize = if frac {
        digits_end_exec(s, 20)
    } else {
        19
    };
    if frac && !(21 <= fr_end && fr_end <= 29) {
        return None;
    }
    let nanos: u32 = if frac {
        let mut acc: u32 = 0;
        let mut k: usize = 20;
        proof {
            assert(s@.subrange(20, 20) =~= Seq::<char>::empty());
            lemma_digits_end_bounds(s@, 20);
        }
        while k < fr_end
            invariant
                20 <= k <= fr_end,
                fr_end <= 29,
                fr_end as int <= s@.len(),
                fr_end as int == digits_end(s@, 20),
                acc as nat == dec_seq_val(s@.subrange(20, k as int)),
                acc < 1_000_000_000,
                forall|m: int| 20 <= m < fr_end ==> is_dec_digit(#[trigger] s@[m]),
            decreases fr_end - k,
        {
            let c: char = s.get_char(k);
            proof {
                assert(is_dec_digit(s@[k as int]));
                assert(s@.subrange(20, k as int + 1).drop_last() =~= s@.subrange(20, k as int));
                assert(s@.subrange(20, k as int + 1).last() == s@[k as int]);
                lemma_dec_seq_val_bound(s@.subrange(20, k as int + 1));
                lemma_pow10_le9(( k + 1 - 20) as nat);
            }
            acc = acc * 10 + (c as u32 - 48);
            k = k + 1;
        }
        let width: usize = 29 - fr_end;
        let mut scale: u32 = 1;
        let mut t: usize = 0;
        while t < width
            invariant
                0 <= t <= width,
                width <= 9,
                scale as nat == pow_nat(10, t as nat),
            decreases width - t,
        {
            proof {
                lemma_pow10_le9((t + 1) as nat);
                assert(pow_nat(10, (t + 1) as nat) == 10 * pow_nat(10, t as nat));
            }
            scale = scale * 10;
            t = t + 1;
        }
        proof {
            lemma_dec_seq_val_bound(s@.subrange(20, fr_end as int));
            lemma_pow10_mul_bound(
                dec_seq_val(s@.subrange(20, fr_end as int)),
                (fr_end - 20) as nat,
                (29 - fr_end) as nat,
            );
            assert(s@.subrange(20, fr_end as int) =~= s@.subrange(20, fr_end as int));
        }
        acc * scale
    } else {
        0
    };
    let p: usize = fr_end;
    if p >= n {
        return None;
    }
    let pc: char = s.get_char(p);
    if pc == 'Z' || pc == 'z' {
        if p + 1 != n {
            return None;
        }
        ts_build(y, mo, d, hh, mm, ss, nanos, 0, true)
    } else if pc == '+' || pc == '-' {
        if !(p + 6 == n) {
            return None;
        }
        let oh = match read_d2(s, p + 1) {
            Some(v) => v,
            None => {
                return None;
            },
        };
        if s.get_char(p + 3) != ':' {
            return None;
        }
        let om = match read_d2(s, p + 4) {
            Some(v) => v,
            None => {
                return None;
            },
        };
        if !(oh < 24 && om < 60) {
            return None;
        }
        let mag: u32 = oh * 60 + om;
        ts_build(y, mo, d, hh, mm, ss, nanos, mag, pc == '+')
    } else {
        return None;
    }
}

proof fn lemma_pow10_le9(e: nat)
    requires
        e <= 9,
    ensures
        pow_nat(10, e) <= 1_000_000_000,
{
    reveal_with_fuel(pow_nat, 10);
    if e == 0 {
    } else if e == 1 {
    } else if e == 2 {
    } else if e == 3 {
    } else if e == 4 {
    } else if e == 5 {
    } else if e == 6 {
    } else if e == 7 {
    } else if e == 8 {
    } else {
        assert(e == 9);
    }
}

impl Timestamp {
    /// Whether this is a real calendar moment.
    pub fn is_valid(&self) -> (r: bool)
        ensures
            r == self.valid(),
    {
        self.year <= 9999 && 1 <= self.month && self.month <= 12 && 1 <= self.day
            && self.day as u32 <= days_in_month_exec(self.year, self.month as u32) && self.hour
            < 24 && self.minute < 60 && self.second < 60 && self.nanos < 1_000_000_000
    }
}

/// Days in this month, executable.
fn days_in_month_exec(y: u32, m: u32) -> (r: u32)
    ensures
        r as nat == days_in_month(y as nat, m as nat),
{
    if m == 1 || m == 3 || m == 5 || m == 7 || m == 8 || m == 10 || m == 12 {
        31
    } else if m == 4 || m == 6 || m == 9 || m == 11 {
        30
    } else if (y % 4 == 0 && y % 100 != 0) || y % 400 == 0 {
        29
    } else {
        28
    }
}

/// Validates the parsed fields and normalizes the offset away, as
/// `ts_assemble` describes.
fn ts_build(
    y: u32,
    mo: u32,
    d: u32,
    hh: u32,
    mm: u32,
    ss: u32,
    nanos: u32,
    offmag: u32,
    east: bool,
) -> (r: Option<Timestamp>)
    requires
        offmag < 1440,
        nanos < 1_000_000_000,
        y < 10000,
        mo < 100,
        d < 100,
        hh < 100,
        mm < 100,
        ss < 100,
    ensures
        r == ts_assemble(
            y as nat,
            mo as nat,
            d as nat,
            hh as nat,
            mm as nat,
            ss as nat,
            nanos as nat,
            (if east {
                offmag as int
            } else {
                -(offmag as int)
            }),
        ),
{
    let dim: u32 = if 1 <= mo && mo <= 12 {
        days_in_month_exec(y, mo)
    } else {
        0
    };
    if !(1 <= mo && mo <= 12 && 1 <= d && d <= dim && hh < 24 && mm < 60 && ss < 60) {
        return None;
    }
    let civil: i32 = (hh * 60 + mm) as i32;
    let tot: i32 = if east {
        civil - offmag as i32
    } else {
        civil + offmag as i32
    };
    if 0 <= tot && tot < 1440 {
        Some(
            Timestamp {
                year: y,
                month: mo as u8,
                day: d as u8,
                hour: (tot / 60) as u8,
                minute: (tot % 60) as u8,
                second: ss as u8,
                nanos,
            },
        )
    } else if tot < 0 {
        let t2: i32 = tot + 1440;
        if d > 1 {
            Some(
                Timestamp {
                    year: y,
                    month: mo as u8,
                    day: (d - 1) as u8,
                    hour: (t2 / 60) as u8,
                    minute: (t2 % 60) as u8,
                    second: ss as u8,
                    nanos,
                },
            )
        } else if mo > 1 {
            let pd: u32 = days_in_month_exec(y, mo - 1);
            Some(
                Timestamp {
                    year: y,
                    month: (mo - 1) as u8,
                    day: pd as u8,
                    hour: (t2 / 60) as u8,
                    minute: (t2 % 60) as u8,
                    second: ss as u8,
                    nanos,
                },
            )
        } else if y > 0 {
            Some(
                Timestamp {
                    year: y - 1,
                    month: 12,
                    day: 31,
                    hour: (t2 / 60) as u8,
                    minute: (t2 % 60) as u8,
                    second: ss as u8,
                    nanos,
                },
            )
        } else {
            None
        }
    } else {
        let t2: i32 = tot - 1440;
        if d < dim {
            Some(
                Timestamp {
                    year: y,
                    month: mo as u8,
                    day: (d + 1) as u8,
                    hour: (t2 / 60) as u8,
                    minute: (t2 % 60) as u8,
                    second: ss as u8,
                    nanos,
                },
            )
        } else if mo < 12 {
            Some(
                Timestamp {
                    year: y,
                    month: (mo + 1) as u8,
                    day: 1,
                    hour: (t2 / 60) as u8,
                    minute: (t2 % 60) as u8,
                    second: ss as u8,
                    nanos,
                },
            )
        } else if y < 9999 {
            Some(
                Timestamp {
                    year: y + 1,
                    month: 1,
                    day: 1,
                    hour: (t2 / 60) as u8,
                    minute: (t2 % 60) as u8,
                    second: ss as u8,
                    nanos,
                },
            )
        } else {
            None
        }
    }
}

/// Round trip: the rendering of a valid instant parses back to exactly that
/// instant.
#[verifier::rlimit(100)]
#[verifier::spinoff_prover]
pub proof fn lemma_ts_round_trip(t: Timestamp)
    requires
        t.valid(),
    ensures
        ts_of_text(ts_text(t)) == Option::Some(t),
{
    let s = ts_text(t);
    lemma_dec_fixed_props(t.year as nat, 4);
    lemma_dec_fixed_props(t.month as nat, 2);
    lemma_dec_fixed_props(t.day as nat, 2);
    lemma_dec_fixed_props(t.hour as nat, 2);
    lemma_dec_fixed_props(t.minute as nat, 2);
    lemma_dec_fixed_props(t.second as nat, 2);
    lemma_dec_fixed_props(t.nanos as nat, 9);
    assert(pow_nat(10, 4) == 10000 && pow_nat(10, 2) == 100 && pow_nat(10, 9)
        == 1_000_000_000) by {
        reveal_with_fuel(pow_nat, 10);
    }
    lemma_d4_of_fixed(s, 0, t.year as nat);
    lemma_d2_of_fixed(s, 5, t.month as nat);
    lemma_d2_of_fixed(s, 8, t.day as nat);
    lemma_d2_of_fixed(s, 11, t.hour as nat);
    lemma_d2_of_fixed(s, 14, t.minute as nat);
    lemma_d2_of_fixed(s, 17, t.second as nat);
    assert(s[4] == '-' && s[7] == '-' && s[10] == 'T' && s[13] == ':' && s[16] == ':');
    assert(head_shape(s));
    assert((t.hour as nat * 60 + t.minute as nat) / 60 == t.hour as nat && (t.hour as nat * 60
        + t.minute as nat) % 60 == t.minute as nat) by (nonlinear_arith)
        requires
            t.minute < 60,
    ;
    if t.nanos == 0 {
        assert(s.len() == 20);
        assert(s[19] == 'Z');
        assert(ts_assemble(
            t.year as nat,
            t.month as nat,
            t.day as nat,
            t.hour as nat,
            t.minute as nat,
            t.second as nat,
            0,
            0,
        ) == Option::Some(t));
    } else {
        assert(s.len() == 30);
        assert(s[19] == '.');
        assert forall|k: int| 20 <= k < 29 implies is_dec_digit(#[trigger] s[k]) by {
            assert(s[k] == dec_fixed(t.nanos as nat, 9)[k - 20]);
        }
        assert(s[29] == 'Z');
        assert(!is_dec_digit('Z'));
        lemma_digits_end_stops(s, 20, 29);
        assert(s.subrange(20, 29) =~= dec_fixed(t.nanos as nat, 9));
        assert(pow_nat(10, 0) == 1);
        assert(dec_seq_val(s.subrange(20, 29)) == t.nanos as nat);
        assert(ts_assemble(
            t.year as nat,
            t.month as nat,
            t.day as nat,
            t.hour as nat,
            t.minute as nat,
            t.second as nat,
            t.nanos as nat,
            0,
        ) == Option::Some(t));
    }
}

proof fn lemma_digits_end_stops(s: Seq<char>, a: int, b: int)
    requires
        0 <= a <= b <= s.len(),
        forall|k: int| a <= k < b ==> is_dec_digit(#[trigger] s[k]),
        b == s.len() || !is_dec_digit(s[b]),
    ensures
        digits_end(s, a) == b,
    decreases b - a,
{
    if a < b {
        lemma_digits_end_stops(s, a + 1, b);
    }
}

proof fn lemma_d2_of_fixed(s: Seq<char>, p: int, v: nat)
    requires
        0 <= p,
        p + 2 <= s.len(),
        v < 100,
        s[p] == dec_fixed(v, 2)[0],
        s[p + 1] == dec_fixed(v, 2)[1],
    ensures
        two_digits_at(s, p),
        d2(s, p) == v,
{
    lemma_dec_fixed_props(v, 2);
    let w = dec_fixed(v, 2);
    assert(is_dec_digit(w[0]) && is_dec_digit(w[1]));
    assert(w.drop_last() =~= w.subrange(0, 1));
    assert(w.subrange(0, 1).drop_last() =~= w.subrange(0, 0));
    assert(dec_seq_val(w.subrange(0, 0)) == 0);
    assert(dec_seq_val(w.subrange(0, 1)) == dec_digit_val(w[0]));
    assert(dec_seq_val(w) == dec_digit_val(w[0]) * 10 + dec_digit_val(w[1]));
    assert(pow_nat(10, 2) == 100) by {
        reveal_with_fuel(pow_nat, 3);
    }
}

proof fn lemma_d4_of_fixed(s: Seq<char>, p: int, v: nat)
    requires
        0 <= p,
        p + 4 <= s.len(),
        v < 10000,
        s[p] == dec_fixed(v, 4)[0],
        s[p + 1] == dec_fixed(v, 4)[1],
        s[p + 2] == dec_fixed(v, 4)[2],
        s[p + 3] == dec_fixed(v, 4)[3],
    ensures
        four_digits_at(s, p),
        d4(s, p) == v,
{
    lemma_dec_fixed_props(v, 4);
    let w = dec_fixed(v, 4);
    assert(is_dec_digit(w[0]) && is_dec_digit(w[1]) && is_dec_digit(w[2]) && is_dec_digit(w[3]));
    assert(w.drop_last() =~= w.subrange(0, 3));
    assert(w.subrange(0, 3).drop_last() =~= w.subrange(0, 2));
    assert(w.subrange(0, 2).drop_last() =~= w.subrange(0, 1));
    assert(w.subrange(0, 1).drop_last() =~= w.subrange(0, 0));
    assert(dec_seq_val(w.subrange(0, 0)) == 0);
    assert(dec_seq_val(w.subrange(0, 1)) == dec_digit_val(w[0]));
    assert(dec_seq_val(w.subrange(0, 2)) == dec_digit_val(w[0]) * 10 + dec_digit_val(w[1]));
    assert(dec_seq_val(w.subrange(0, 3)) == (dec_digit_val(w[0]) * 10 + dec_digit_val(w[1]))
        * 10 + dec_digit_val(w[2]));
    assert(dec_seq_val(w) == ((dec_digit_val(w[0]) * 10 + dec_digit_val(w[1])) * 10
        + dec_digit_val(w[2])) * 10 + dec_digit_val(w[3]));
    assert(pow_nat(10, 4) == 10000) by {
        reveal_with_fuel(pow_nat, 5);
    }
}

} // verus!
