//! Character-level helpers shared by the line codec, the integrity guard and
//! the configuration checks: whitespace classification and trimming, decimal
//! and hexadecimal digits with fixed-width rendering, and bounded truncation.
use vstd::prelude::*;
use vstd::string::*;

verus! {

/// The whitespace characters that `str::trim` in the standard library removes:
/// the characters with the Unicode `White_Space` property.
pub open spec fn is_unicode_ws(c: char) -> bool {
    let v = c as u32;
    (0x09 <= v && v <= 0x0D) || v == 0x20 || v == 0x85 || v == 0xA0 || v == 0x1680 || (0x2000
        <= v && v <= 0x200A) || v == 0x2028 || v == 0x2029 || v == 0x202F || v == 0x205F || v
        == 0x3000
}

/// Insignificant whitespace between JSON tokens.
pub open spec fn is_json_ws(c: char) -> bool {
    c == ' ' || c == '\t' || c == '\n' || c == '\r'
}

pub open spec fn trim_front_spec(s: Seq<char>) -> Seq<char>
    decreases s.len(),
{
    if s.len() > 0 && is_unicode_ws(s[0]) {
        trim_front_spec(s.drop_first())
    } else {
        s
    }
}

pub open spec fn trim_back_spec(s: Seq<char>) -> Seq<char>
    decreases s.len(),
{
    if s.len() > 0 && is_unicode_ws(s.last()) {
        trim_back_spec(s.drop_last())
    } else {
        s
    }
}

/// What `str::trim` returns: the input without leading and trailing whitespace.
pub open spec fn trim_spec(s: Seq<char>) -> Seq<char> {
    trim_back_spec(trim_front_spec(s))
}

proof fn lemma_trim_front_skip(s: Seq<char>, k: int)
    requires
        0 <= k <= s.len(),
        forall|m: int| 0 <= m < k ==> is_unicode_ws(s[m]),
    ensures
        trim_front_spec(s) == trim_front_spec(s.skip(k)),
    decreases k,
{
    if k > 0 {
        assert(trim_front_spec(s) == trim_front_spec(s.drop_first()));
        assert forall|m: int| 0 <= m < k - 1 implies is_unicode_ws(s.drop_first()[m]) by {
            assert(s.drop_first()[m] == s[m + 1]);
        }
        lemma_trim_front_skip(s.drop_first(), k - 1);
        assert(s.drop_first().skip(k - 1) =~= s.skip(k));
    } else {
        assert(s.skip(0) =~= s);
    }
}

proof fn lemma_trim_back_take(s: Seq<char>, k: int)
    requires
        0 <= k <= s.len(),
        forall|m: int| k <= m < s.len() ==> is_unicode_ws(s[m]),
    ensures
        trim_back_spec(s) == trim_back_spec(s.take(k)),
    decreases s.len() - k,
{
    if k < s.len() {
        assert(is_unicode_ws(s.last()));
        assert(trim_back_spec(s) == trim_back_spec(s.drop_last()));
        assert forall|m: int| k <= m < s.drop_last().len() implies is_unicode_ws(
            s.drop_last()[m],
        ) by {
            assert(s.drop_last()[m] == s[m]);
        }
        lemma_trim_back_take(s.drop_last(), k);
        assert(s.drop_last().take(k) =~= s.take(k));
    } else {
        assert(s.take(k) =~= s);
    }
}

/// The input without leading and trailing whitespace, as `str::trim` yields it.
pub fn trimmed<'a>(s: &'a str) -> (r: &'a str)
    ensures
        r@ == trim_spec(s@),
{
    let n: usize = s.unicode_len();
    let mut i: usize = 0;
    while i < n && is_ws_exec(s.get_char(i))
        invariant
            0 <= i <= n,
            n == s@.len(),
            forall|m: int| 0 <= m < i ==> is_unicode_ws(s@[m]),
        decreases n - i,
    {
        i = i + 1;
    }
    let mut j: usize = n;
    while j > i && is_ws_exec(s.get_char(j - 1))
        invariant
            i <= j <= n,
            n == s@.len(),
            forall|m: int| 0 <= m < i ==> is_unicode_ws(s@[m]),
            forall|m: int| j <= m < n ==> is_unicode_ws(s@[m]),
        decreases j,
    {
        j = j - 1;
    }
    proof {
        lemma_trim_front_skip(s@, i as int);
        let t = s@.skip(i as int);
        if i < n {
            assert(!is_unicode_ws(t[0]));
        }
        assert(trim_front_spec(t) == t);
        lemma_trim_back_take(t, j - i);
        let u = t.take(j - i);
        if j > i {
            assert(u.last() == s@[j - 1]);
            assert(!is_unicode_ws(u.last()));
        }
        assert(trim_back_spec(u) == u);
        assert(u =~= s@.subrange(i as int, j as int));
    }
    s.substring_char(i, j)
}

/// Whether `c` has the Unicode `White_Space` property.
pub fn is_ws_exec(c: char) -> (r: bool)
    ensures
        r == is_unicode_ws(c),
{
    let v = c as u32;
    (0x09 <= v && v <= 0x0D) || v == 0x20 || v == 0x85 || v == 0xA0 || v == 0x1680 || (0x2000
        <= v && v <= 0x200A) || v == 0x2028 || v == 0x2029 || v == 0x202F || v == 0x205F || v
        == 0x3000
}

/// Whether `c` is insignificant whitespace between JSON tokens.
pub fn is_json_ws_exec(c: char) -> (r: bool)
    ensures
        r == is_json_ws(c),
{
    c == ' ' || c == '\t' || c == '\n' || c == '\r'
}

pub open spec fn is_dec_digit(c: char) -> bool {
    48 <= c as u32 && c as u32 <= 57
}

pub open spec fn dec_digit_val(c: char) -> nat {
    (c as u32 - 48) as nat
}

pub open spec fn is_hex_digit(c: char) -> bool {
    is_dec_digit(c) || (97 <= c as u32 && c as u32 <= 102) || (65 <= c as u32 && c as u32 <= 70)
}

pub open spec fn hex_digit_val(c: char) -> nat {
    if is_dec_digit(c) {
        dec_digit_val(c)
    } else if 97 <= c as u32 && c as u32 <= 102 {
        (c as u32 - 87) as nat
    } else {
        (c as u32 - 55) as nat
    }
}

/// The decimal digit character for `v`, which must be below ten.
pub open spec fn dec_digit_char(v: nat) -> char {
    ((48 + v) as u32) as char
}

/// The lowercase hexadecimal digit character for `v`, which must be below sixteen.
pub open spec fn hex_digit_char(v: nat) -> char {
    if v < 10 {
        ((48 + v) as u32) as char
    } else {
        ((87 + v) as u32) as char
    }
}

/// `v` rendered in decimal over exactly `width` digits, leading zeros kept.
pub open spec fn dec_fixed(v: nat, width: nat) -> Seq<char>
    decreases width,
{
    if width == 0 {
        Seq::empty()
    } else {
        dec_fixed(v / 10, (width - 1) as nat) + seq![dec_digit_char(v % 10)]
    }
}

/// `v` rendered in lowercase hexadecimal over exactly `width` digits.
pub open spec fn hex_fixed(v: nat, width: nat) -> Seq<char>
    decreases width,
{
    if width == 0 {
        Seq::empty()
    } else {
        hex_fixed(v / 16, (width - 1) as nat) + seq![hex_digit_char(v % 16)]
    }
}

/// The number a digit sequence denotes in base ten.
pub open spec fn dec_seq_val(s: Seq<char>) -> nat
    decreases s.len(),
{
    if s.len() == 0 {
        0
    } else {
        dec_seq_val(s.drop_last()) * 10 + dec_digit_val(s.last())
    }
}

/// The number a digit sequence denotes in base sixteen.
pub open spec fn hex_seq_val(s: Seq<char>) -> nat
    decreases s.len(),
{
    if s.len() == 0 {
        0
    } else {
        hex_seq_val(s.drop_last()) * 16 + hex_digit_val(s.last())
    }
}

pub open spec fn all_dec_digits(s: Seq<char>) -> bool {
    forall|m: int| 0 <= m < s.len() ==> is_dec_digit(#[trigger] s[m])
}

pub open spec fn all_hex_digits(s: Seq<char>) -> bool {
    forall|m: int| 0 <= m < s.len() ==> is_hex_digit(#[trigger] s[m])
}

pub open spec fn pow_nat(base: nat, e: nat) -> nat
    decreases e,
{
    if e == 0 {
        1
    } else {
        base * pow_nat(base, (e - 1) as nat)
    }
}

pub proof fn lemma_dec_fixed_props(v: nat, width: nat)
    ensures
        dec_fixed(v, width).len() == width,
        all_dec_digits(dec_fixed(v, width)),
        v < pow_nat(10, width) ==> dec_seq_val(dec_fixed(v, width)) == v,
    decreases width,
{
    if width > 0 {
        lemma_dec_fixed_props(v / 10, (width - 1) as nat);
        let s = dec_fixed(v, width);
        let hd = dec_fixed(v / 10, (width - 1) as nat);
        assert(s.drop_last() =~= hd);
        assert(s.last() == dec_digit_char(v % 10));
        assert(dec_digit_val(dec_digit_char(v % 10)) == v % 10);
        if v < pow_nat(10, width) {
            assert(pow_nat(10, width) == 10 * pow_nat(10, (width - 1) as nat));
            assert(v / 10 < pow_nat(10, (width - 1) as nat)) by (nonlinear_arith)
                requires
                    v < 10 * pow_nat(10, (width - 1) as nat),
            ;
            assert(dec_seq_val(s) == (v / 10) * 10 + v % 10);
            assert((v / 10) * 10 + v % 10 == v) by (nonlinear_arith);
        }
    }
}

pub proof fn lemma_hex_fixed_props(v: nat, width: nat)
    ensures
        hex_fixed(v, width).len() == width,
        all_hex_digits(hex_fixed(v, width)),
        v < pow_nat(16, width) ==> hex_seq_val(hex_fixed(v, width)) == v,
    decreases width,
{
    if width > 0 {
        lemma_hex_fixed_props(v / 16, (width - 1) as nat);
        let s = hex_fixed(v, width);
        let hd = hex_fixed(v / 16, (width - 1) as nat);
        assert(s.drop_last() =~= hd);
        assert(s.last() == hex_digit_char(v % 16));
        assert(hex_digit_val(hex_digit_char(v % 16)) == v % 16);
        if v < pow_nat(16, width) {
            assert(pow_nat(16, width) == 16 * pow_nat(16, (width - 1) as nat));
            assert(v / 16 < pow_nat(16, (width - 1) as nat)) by (nonlinear_arith)
                requires
                    v < 16 * pow_nat(16, (width - 1) as nat),
            ;
            assert(hex_seq_val(s) == (v / 16) * 16 + v % 16);
            assert((v / 16) * 16 + v % 16 == v) by (nonlinear_arith);
        }
    }
}

/// Appends `v` in decimal over exactly `width` digits, most significant first.
pub fn push_dec_fixed(out: &mut Vec<char>, v: u32, width: usize)
    requires
        width <= 10,
    ensures
        final(out)@ == old(out)@ + dec_fixed(v as nat, width as nat),
    decreases width,
{
    if width == 0 {
        proof {
            assert(out@ =~= out@ + Seq::<char>::empty());
        }
    } else {
        push_dec_fixed(out, v / 10, width - 1);
        let d: u32 = v % 10;
        out.push((48 + d as u8) as char);
        proof {
            assert((48 + (v as nat % 10)) as u32 as char == (48 + (v % 10) as u8) as char);
            assert(out@ =~= old(out)@ + dec_fixed(v as nat, width as nat));
        }
    }
}

/// Appends `v` in lowercase hexadecimal over exactly `width` digits.
pub fn push_hex_fixed(out: &mut Vec<char>, v: u128, width: usize)
    requires
        width <= 32,
    ensures
        final(out)@ == old(out)@ + hex_fixed(v as nat, width as nat),
    decreases width,
{
    if width == 0 {
        proof {
            assert(out@ =~= out@ + Seq::<char>::empty());
        }
    } else {
        push_hex_fixed(out, v / 16, width - 1);
        let d: u8 = (v % 16) as u8;
        let c: char = if d < 10 {
            (48 + d) as char
        } else {
            (87 + d) as char
        };
        out.push(c);
        proof {
            assert(c == hex_digit_char(v as nat % 16));
            assert(out@ =~= old(out)@ + hex_fixed(v as nat, width as nat));
        }
    }
}

/// Whether `c` is a decimal digit.
pub fn is_dec_digit_exec(c: char) -> (r: bool)
    ensures
        r == is_dec_digit(c),
{
    let v = c as u32;
    48 <= v && v <= 57
}

/// Whether `c` is a hexadecimal digit of either case.
pub fn is_hex_digit_exec(c: char) -> (r: bool)
    ensures
        r == is_hex_digit(c),
{
    let v = c as u32;
    (48 <= v && v <= 57) || (97 <= v && v <= 102) || (65 <= v && v <= 70)
}

/// The value of the hexadecimal digit `c`.
pub fn hex_digit_val_exec(c: char) -> (r: u32)
    requires
        is_hex_digit(c),
    ensures
        r == hex_digit_val(c),
{
    let v = c as u32;
    if 48 <= v && v <= 57 {
        v - 48
    } else if 97 <= v && v <= 102 {
        v - 87
    } else {
        v - 55
    }
}

/// Builds the owned string whose characters are exactly `v`.
///
/// Relies on `String::from_iter` over a character iterator, which collects
/// the characters in order.
#[verifier::external_body]
pub fn string_from_chars(v: &Vec<char>) -> (r: String)
    ensures
        r@ == v@,
{
    v.iter().collect()
}

/// At most the first `cap` characters of `s`.
pub fn truncate_chars(s: &str, cap: usize) -> (r: String)
    ensures
        r@ == (if s@.len() <= cap as nat {
            s@
        } else {
            s@.take(cap as int)
        }),
{
    let n: usize = s.unicode_len();
    if n <= cap {
        proof {
            assert(s@.subrange(0, n as int) =~= s@);
        }
        s.substring_char(0, n).to_owned()
    } else {
        s.substring_char(0, cap).to_owned()
    }
}


/// The end of the run of decimal digits starting at `i`.
pub open spec fn digits_end(s: Seq<char>, i: int) -> int
    decreases s.len() - i,
    when 0 <= i <= s.len()
{
    if i < s.len() && is_dec_digit(s[i]) {
        digits_end(s, i + 1)
    } else {
        i
    }
}

pub proof fn lemma_digits_end_bounds(s: Seq<char>, i: int)
    requires
        0 <= i <= s.len(),
    ensures
        i <= digits_end(s, i) <= s.len(),
        forall|m: int| i <= m < digits_end(s, i) ==> is_dec_digit(#[trigger] s[m]),
        digits_end(s, i) < s.len() ==> !is_dec_digit(s[digits_end(s, i)]),
    decreases s.len() - i,
{
    if i < s.len() && is_dec_digit(s[i]) {
        lemma_digits_end_bounds(s, i + 1);
    }
}

pub fn digits_end_exec(s: &str, i: usize) -> (r: usize)
    requires
        i as int <= s@.len(),
    ensures
        r as int == digits_end(s@, i as int),
        i <= r,
        r as int <= s@.len(),
{
    let n: usize = s.unicode_len();
    let mut k: usize = i;
    while k < n && is_dec_digit_exec(s.get_char(k))
        invariant
            i <= k <= n,
            n == s@.len(),
            digits_end(s@, i as int) == digits_end(s@, k as int),
        decreases n - k,
    {
        k = k + 1;
    }
    k
}

/// Appends the characters of `s` unchanged.
pub fn push_chars_of(out: &mut Vec<char>, s: &str)
    ensures
        final(out)@ == old(out)@ + s@,
{
    let n: usize = s.unicode_len();
    let mut k: usize = 0;
    proof {
        assert(out@ =~= out@ + s@.take(0));
    }
    while k < n
        invariant
            0 <= k <= n,
            n == s@.len(),
            out@ == old(out)@ + s@.take(k as int),
        decreases n - k,
    {
        out.push(s.get_char(k));
        proof {
            assert(s@.take(k as int + 1) =~= s@.take(k as int) + seq![s@[k as int]]);
            assert(out@ =~= old(out)@ + s@.take(k as int + 1));
        }
        k = k + 1;
    }
    proof {
        assert(s@.take(n as int) =~= s@);
    }
}

} // verus!
