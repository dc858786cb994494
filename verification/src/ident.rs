//! Source and collector identifiers: 128-bit values written as lowercase
//! hyphenated UUID text. Parsing accepts the four UUID text forms — simple,
//! hyphenated, braced, and URN — with digits of either case.
use crate::text::{
    all_hex_digits, hex_digit_val_exec, hex_fixed, hex_seq_val, is_hex_digit, is_hex_digit_exec,
    lemma_hex_fixed_props, pow_nat, push_hex_fixed,
};
use vstd::prelude::*;
use vstd::string::*;

verus! {

/// The lowercase hyphenated text of an identifier: `8-4-4-4-12` digits.
pub open spec fn uuid_text(v: u128) -> Seq<char> {
    let h = hex_fixed(v as nat, 32);
    h.subrange(0, 8) + seq!['-'] + h.subrange(8, 12) + seq!['-'] + h.subrange(12, 16) + seq![
        '-',
    ] + h.subrange(16, 20) + seq!['-'] + h.subrange(20, 32)
}

/// The 32 digit characters of a 36-character hyphenated form.
pub open spec fn hyph_digits(s: Seq<char>) -> Seq<char> {
    s.subrange(0, 8) + s.subrange(9, 13) + s.subrange(14, 18) + s.subrange(19, 23) + s.subrange(
        24,
        36,
    )
}

/// Whether `s` is a hyphenated UUID form: hyphens at their four fixed
/// places, hexadecimal digits of either case elsewhere.
pub open spec fn hyph_ok(s: Seq<char>) -> bool {
    s.len() == 36 && s[8] == '-' && s[13] == '-' && s[18] == '-' && s[23] == '-'
        && all_hex_digits(hyph_digits(s))
}

pub open spec fn hyph_val(s: Seq<char>) -> u128 {
    hex_seq_val(hyph_digits(s)) as u128
}

/// One character of the `urn:uuid:` prefix, either case.
pub open spec fn ci_eq(c: char, lower: char) -> bool {
    c == lower || c as u32 + 32 == lower as u32
}

pub open spec fn urn_prefix_ok(s: Seq<char>) -> bool {
    ci_eq(s[0], 'u') && ci_eq(s[1], 'r') && ci_eq(s[2], 'n') && s[3] == ':' && ci_eq(s[4], 'u')
        && ci_eq(s[5], 'u') && ci_eq(s[6], 'i') && ci_eq(s[7], 'd') && s[8] == ':'
}

/// The identifier a text denotes, in any of the four UUID forms: 32 plain
/// digits, hyphenated, braced hyphenated, or a `urn:uuid:` prefix; nothing
/// for any other text.
pub open spec fn uuid_of_text(s: Seq<char>) -> Option<u128> {
    if s.len() == 32 && all_hex_digits(s) {
        Option::Some(hex_seq_val(s) as u128)
    } else if s.len() == 36 && hyph_ok(s) {
        Option::Some(hyph_val(s))
    } else if s.len() == 38 && s[0] == '{' && s[37] == '}' && hyph_ok(s.subrange(1, 37)) {
        Option::Some(hyph_val(s.subrange(1, 37)))
    } else if s.len() == 45 && urn_prefix_ok(s) && hyph_ok(s.subrange(9, 45)) {
        Option::Some(hyph_val(s.subrange(9, 45)))
    } else {
        Option::None
    }
}

/// The value of exactly 32 hexadecimal digits, or nothing if another
/// character appears.
fn hex32_val(digs: &Vec<char>) -> (r: Option<u128>)
    requires
        digs@.len() == 32,
    ensures
        r is Some <==> all_hex_digits(digs@),
        r is Some ==> r.unwrap() as nat == hex_seq_val(digs@),
{
    let mut acc: u128 = 0;
    let mut k: usize = 0;
    proof {
        assert(digs@.take(0) =~= Seq::<char>::empty());
    }
    while k < 32
        invariant
            0 <= k <= 32,
            digs@.len() == 32,
            all_hex_digits(digs@.take(k as int)),
            acc as nat == hex_seq_val(digs@.take(k as int)),
            (acc as nat) < pow_nat(16, k as nat),
        decreases 32 - k,
    {
        let c: char = digs[k];
        if !is_hex_digit_exec(c) {
            proof {
                assert(!is_hex_digit(digs@[k as int]));
            }
            return None;
        }
        let d: u32 = hex_digit_val_exec(c);
        proof {
            assert(digs@.take(k as int + 1).drop_last() =~= digs@.take(k as int));
            assert(digs@.take(k as int + 1).last() == digs@[k as int]);
            lemma_pow16_le32((k + 1) as nat);
            assert(pow_nat(16, (k + 1) as nat) == 16 * pow_nat(16, k as nat));
            assert forall|m: int| 0 <= m < digs@.take(k as int + 1).len() implies is_hex_digit(
                #[trigger] digs@.take(k as int + 1)[m],
            ) by {
                assert(digs@.take(k as int + 1)[m] == digs@[m]);
                if m < k {
                    assert(digs@.take(k as int)[m] == digs@[m]);
                }
            }
        }
        acc = acc * 16 + d as u128;
        k = k + 1;
    }
    proof {
        assert(digs@.take(32) =~= digs@);
    }
    Some(acc)
}

proof fn lemma_pow16_le32(e: nat)
    requires
        e <= 32,
    ensures
        pow_nat(16, e) <= 0x1_0000_0000_0000_0000_0000_0000_0000_0000,
    decreases 32 - e,
{
    if e == 32 {
        lemma_pow16_exact();
    } else {
        lemma_pow16_le32(e + 1);
        assert(pow_nat(16, e + 1) == 16 * pow_nat(16, e));
        assert(16 * pow_nat(16, e) >= pow_nat(16, e)) by (nonlinear_arith)
            requires
                pow_nat(16, e) >= 0,
        ;
    }
}

proof fn lemma_pow16_exact()
    ensures
        pow_nat(16, 32) == 0x1_0000_0000_0000_0000_0000_0000_0000_0000,
{
    reveal_with_fuel(pow_nat, 33);
}

/// Appends `src[a..b]`.
fn push_range(out: &mut Vec<char>, src: &Vec<char>, a: usize, b: usize)
    requires
        a <= b,
        b as int <= src@.len(),
    ensures
        final(out)@ == old(out)@ + src@.subrange(a as int, b as int),
{
    let mut k: usize = a;
    proof {
        assert(out@ =~= out@ + src@.subrange(a as int, a as int));
    }
    while k < b
        invariant
            a <= k <= b,
            b as int <= src@.len(),
            out@ == old(out)@ + src@.subrange(a as int, k as int),
        decreases b - k,
    {
        out.push(src[k]);
        proof {
            assert(src@.subrange(a as int, k as int + 1) =~= src@.subrange(a as int, k as int)
                + seq![src@[k as int]]);
            assert(out@ =~= old(out)@ + src@.subrange(a as int, k as int + 1));
        }
        k = k + 1;
    }
}

/// Appends the lowercase hyphenated text of `v`.
pub fn write_uuid(v: u128, out: &mut Vec<char>)
    ensures
        final(out)@ == old(out)@ + uuid_text(v),
{
    let mut tmp: Vec<char> = Vec::new();
    push_hex_fixed(&mut tmp, v, 32);
    proof {
        assert(tmp@ =~= hex_fixed(v as nat, 32));
        lemma_hex_fixed_props(v as nat, 32);
    }
    push_range(out, &tmp, 0, 8);
    out.push('-');
    push_range(out, &tmp, 8, 12);
    out.push('-');
    push_range(out, &tmp, 12, 16);
    out.push('-');
    push_range(out, &tmp, 16, 20);
    out.push('-');
    push_range(out, &tmp, 20, 32);
    proof {
        assert(out@ =~= old(out)@ + uuid_text(v));
    }
}

/// Reads the 36-character hyphenated form starting at `off`.
fn parse_hyph36(s: &str, off: usize) -> (r: Option<u128>)
    requires
        off + 36 <= s@.len(),
    ensures
        r is Some <==> hyph_ok(s@.subrange(off as int, off as int + 36)),
        r is Some ==> r.unwrap() == hyph_val(s@.subrange(off as int, off as int + 36)),
{
    let n: usize = s.unicode_len();
    let ghost w = s@.subrange(off as int, off as int + 36);
    if !(s.get_char(off + 8) == '-' && s.get_char(off + 13) == '-' && s.get_char(off + 18) == '-'
        && s.get_char(off + 23) == '-') {
        proof {
            assert(w[8] == s@[off + 8] && w[13] == s@[off + 13] && w[18] == s@[off + 18] && w[23]
                == s@[off + 23]);
        }
        return None;
    }
    let mut digs: Vec<char> = Vec::new();
    let mut k: usize = 0;
    while k < 36
        invariant
            0 <= k <= 36,
            n == s@.len(),
            off + 36 <= n,
            w == s@.subrange(off as int, off as int + 36),
            digs@ == hyph_digits(w).take(digit_count(k as int)),
        decreases 36 - k,
    {
        if !(k == 8 || k == 13 || k == 18 || k == 23) {
            digs.push(s.get_char(off + k));
            proof {
                assert(s@[off + k] == w[k as int]);
                assert(hyph_digits(w)[digit_count(k as int)] == w[k as int]);
                assert(hyph_digits(w).take(digit_count(k as int + 1)) =~= hyph_digits(w).take(
                    digit_count(k as int),
                ) + seq![w[k as int]]);
            }
        } else {
            proof {
                assert(digit_count(k as int + 1) == digit_count(k as int));
            }
        }
        k = k + 1;
    }
    proof {
        assert(digit_count(36) == 32);
        assert(hyph_digits(w).len() == 32);
        assert(digs@ =~= hyph_digits(w));
    }
    match hex32_val(&digs) {
        Some(v) => {
            proof {
                assert(w[8] == '-' && w[13] == '-' && w[18] == '-' && w[23] == '-');
            }
            Some(v)
        },
        None => None,
    }
}

/// How many of the first `k` positions of a hyphenated form hold digits.
pub open spec fn digit_count(k: int) -> int {
    k - (if k > 8 {
        1int
    } else {
        0int
    }) - (if k > 13 {
        1int
    } else {
        0int
    }) - (if k > 18 {
        1int
    } else {
        0int
    }) - (if k > 23 {
        1int
    } else {
        0int
    })
}

/// Parses a source or collector identifier from any of the four UUID text
/// forms; digits of either case are accepted.
pub fn parse_uuid(s: &str) -> (r: Option<u128>)
    ensures
        r == uuid_of_text(s@),
{
    let n: usize = s.unicode_len();
    if n == 32 {
        let mut digs: Vec<char> = Vec::new();
        push_chars_into(&mut digs, s);
        proof {
            assert(digs@ =~= s@);
        }
        hex32_val(&digs)
    } else if n == 36 {
        let r = parse_hyph36(s, 0);
        proof {
            assert(s@.subrange(0, 36) =~= s@);
        }
        r
    } else if n == 38 {
        if !(s.get_char(0) == '{' && s.get_char(37) == '}') {
            return None;
        }
        parse_hyph36(s, 1)
    } else if n == 45 {
        let ok = ci_check(s.get_char(0), 'u') && ci_check(s.get_char(1), 'r') && ci_check(
            s.get_char(2),
            'n',
        ) && s.get_char(3) == ':' && ci_check(s.get_char(4), 'u') && ci_check(
            s.get_char(5),
            'u',
        ) && ci_check(s.get_char(6), 'i') && ci_check(s.get_char(7), 'd') && s.get_char(8)
            == ':';
        if !ok {
            return None;
        }
        parse_hyph36(s, 9)
    } else {
        None
    }
}

/// Case-insensitive match of one ASCII letter.
fn ci_check(c: char, lower: char) -> (r: bool)
    ensures
        r == ci_eq(c, lower),
{
    c == lower || c as u32 + 32 == lower as u32
}

/// Appends every character of `s`.
fn push_chars_into(out: &mut Vec<char>, s: &str)
    ensures
        final(out)@ == old(out)@ + s@,
{
    let n: usize = s.unicode_len();
    let mut k: usize = 0;
    proof {
        assert(out@ =~= out@ + s@.take(0));
    }
    while k < n
        invariant
            0 <= k <= n,
            n == s@.len(),
            out@ == old(out)@ + s@.take(k as int),
        decreases n - k,
    {
        out.push(s.get_char(k));
        proof {
            assert(s@.take(k as int + 1) =~= s@.take(k as int) + seq![s@[k as int]]);
            assert(out@ =~= old(out)@ + s@.take(k as int + 1));
        }
        k = k + 1;
    }
    proof {
        assert(s@.take(n as int) =~= s@);
    }
}

/// Round trip: the hyphenated text of an identifier parses back to exactly
/// that identifier.
pub proof fn lemma_uuid_round_trip(v: u128)
    ensures
        uuid_of_text(uuid_text(v)) == Option::Some(v),
{
    let h = hex_fixed(v as nat, 32);
    lemma_hex_fixed_props(v as nat, 32);
    let s = uuid_text(v);
    assert(s.len() == 36);
    assert(s[8] == '-' && s[13] == '-' && s[18] == '-' && s[23] == '-');
    assert(hyph_digits(s) =~= h);
    assert(hyph_ok(s));
    lemma_pow16_exact();
    assert((v as nat) < pow_nat(16, 32));
    assert(hex_seq_val(h) == v as nat);
    assert(s.len() != 32);
}

} // verus!
