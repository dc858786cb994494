//! Integrity guard: detects transport corruption of an ingest payload before
//! it is trusted and parsed. The checksum is CRC-32/IEEE — reversed polynomial
//! 0xEDB88320, initial value all-ones, final complement — over the exact byte
//! sequence of the payload.
use crate::text::{
    all_hex_digits, hex_digit_val, hex_seq_val, is_hex_digit, is_hex_digit_exec,
    hex_digit_val_exec, pow_nat, trim_spec, trimmed,
};
use vstd::prelude::*;
use vstd::string::*;

verus! {

/// One shift-and-conditional-xor round of the bitwise CRC-32/IEEE update.
pub open spec fn crc32_step(crc: u32) -> u32 {
    if crc & 1 == 1 {
        (crc >> 1) ^ 0xEDB8_8320u32
    } else {
        crc >> 1
    }
}

/// `n` rounds of `crc32_step`.
pub open spec fn crc32_steps(crc: u32, n: nat) -> u32
    decreases n,
{
    if n == 0 {
        crc
    } else {
        crc32_step(crc32_steps(crc, (n - 1) as nat))
    }
}

/// The CRC state after absorbing one byte: xor it in, then eight rounds.
pub open spec fn crc32_update(crc: u32, b: u8) -> u32 {
    crc32_steps(crc ^ (b as u32), 8)
}

/// The CRC state after absorbing the first `n` bytes, starting from all-ones.
pub open spec fn crc32_accum(bytes: Seq<u8>, n: nat) -> u32
    decreases n,
{
    if n == 0 {
        0xFFFF_FFFFu32
    } else {
        crc32_update(crc32_accum(bytes, (n - 1) as nat), bytes[n - 1])
    }
}

/// The CRC-32/IEEE checksum of a byte sequence: absorb every byte, then
/// complement the final state.
pub open spec fn crc32_of(bytes: Seq<u8>) -> u32 {
    crc32_accum(bytes, bytes.len()) ^ 0xFFFF_FFFFu32
}

/// The CRC-32/IEEE checksum of `bytes`. Deterministic: the result is a pure
/// function of the exact byte sequence.
pub fn crc32_ieee(bytes: &[u8]) -> (r: u32)
    ensures
        r == crc32_of(bytes@),
{
    let n: usize = bytes.len();
    let mut crc: u32 = 0xFFFF_FFFF;
    let mut i: usize = 0;
    while i < n
        invariant
            0 <= i <= n,
            n == bytes@.len(),
            crc == crc32_accum(bytes@, i as nat),
        decreases n - i,
    {
        let b: u8 = bytes[i];
        let ghost start: u32 = crc ^ (b as u32);
        let mut c: u32 = crc ^ (b as u32);
        let mut k: usize = 0;
        while k < 8
            invariant
                0 <= k <= 8,
                c == crc32_steps(start, k as nat),
            decreases 8 - k,
        {
            if c & 1 == 1 {
                c = (c >> 1) ^ 0xEDB8_8320;
            } else {
                c = c >> 1;
            }
            k = k + 1;
        }
        crc = c;
        i = i + 1;
    }
    crc ^ 0xFFFF_FFFF
}

/// The checksum text with surrounding whitespace and an optional `0x` prefix
/// removed.
pub open spec fn checksum_core(s: Seq<char>) -> Seq<char> {
    let t = trim_spec(s);
    if t.len() >= 2 && t[0] == '0' && t[1] == 'x' {
        t.skip(2)
    } else {
        t
    }
}

/// The checksum a declared-checksum header denotes: exactly eight hexadecimal
/// digits, case-insensitive, optionally prefixed `0x`. Any other length or
/// non-hexadecimal content denotes nothing.
pub open spec fn declared_checksum_of(s: Seq<char>) -> Option<u32> {
    let u = checksum_core(s);
    if u.len() == 8 && all_hex_digits(u) {
        Some(hex_seq_val(u) as u32)
    } else {
        None
    }
}

pub proof fn lemma_hex_seq_val_bound(s: Seq<char>)
    requires
        all_hex_digits(s),
    ensures
        hex_seq_val(s) < pow_nat(16, s.len()),
    decreases s.len(),
{
    if s.len() > 0 {
        assert forall|m: int| 0 <= m < s.drop_last().len() implies is_hex_digit(
            #[trigger] s.drop_last()[m],
        ) by {
            assert(s.drop_last()[m] == s[m]);
        }
        assert(is_hex_digit(s.last()));
        lemma_hex_seq_val_bound(s.drop_last());
        assert(hex_seq_val(s.drop_last()) * 16 + hex_digit_val(s.last()) < 16 * pow_nat(
            16,
            (s.len() - 1) as nat,
        )) by (nonlinear_arith)
            requires
                hex_seq_val(s.drop_last()) < pow_nat(16, (s.len() - 1) as nat),
                hex_digit_val(s.last()) < 16,
        ;
    }
}

/// Parses a declared checksum as the ingest header carries it: optional
/// whitespace around an optionally `0x`-prefixed string of exactly eight
/// hexadecimal digits of either case. Returns nothing on any other content.
pub fn parse_declared_checksum(s: &str) -> (r: Option<u32>)
    ensures
        r == declared_checksum_of(s@),
{
    let t: &str = trimmed(s);
    let tn: usize = t.unicode_len();
    let off: usize = if tn >= 2 && t.get_char(0) == '0' && t.get_char(1) == 'x' {
        2
    } else {
        0
    };
    let ghost u = checksum_core(s@);
    proof {
        assert(u =~= t@.skip(off as int));
    }
    if tn - off != 8 {
        return None;
    }
    let mut acc: u32 = 0;
    let mut k: usize = 0;
    while k < 8
        invariant
            0 <= k <= 8,
            tn == t@.len(),
            off + 8 == tn,
            u == t@.skip(off as int),
            u == checksum_core(s@),
            u.len() == 8,
            all_hex_digits(u.take(k as int)),
            acc == hex_seq_val(u.take(k as int)),
            acc < pow_nat(16, k as nat),
        decreases 8 - k,
    {
        let c: char = t.get_char(off + k);
        proof {
            assert(u[k as int] == t@[(off + k) as int]);
        }
        if !is_hex_digit_exec(c) {
            proof {
                assert(!is_hex_digit(u[k as int]));
                assert(!all_hex_digits(u));
            }
            return None;
        }
        let d: u32 = hex_digit_val_exec(c);
        proof {
            assert(pow_nat(16, 7) == 0x1000_0000) by {
                reveal_with_fuel(pow_nat, 8);
            }
            assert(pow_nat(16, k as nat) <= pow_nat(16, 7)) by {
                lemma_pow16_mono(k as nat, 7);
            }
            assert(u.take(k as int + 1).drop_last() =~= u.take(k as int));
            assert(u.take(k as int + 1).last() == u[k as int]);
        }
        acc = acc * 16 + d;
        proof {
            assert(acc == hex_seq_val(u.take(k as int + 1)));
            assert(hex_seq_val(u.take(k as int + 1)) < pow_nat(16, (k + 1) as nat)) by {
                lemma_hex_seq_val_bound(u.take(k as int + 1));
            }
        }
        k = k + 1;
    }
    proof {
        assert(u.take(8) =~= u);
    }
    Some(acc)
}

proof fn lemma_pow16_mono(a: nat, b: nat)
    requires
        a <= b,
    ensures
        pow_nat(16, a) <= pow_nat(16, b),
    decreases b,
{
    if a < b {
        lemma_pow16_mono(a, (b - 1) as nat);
        assert(pow_nat(16, b) == 16 * pow_nat(16, (b - 1) as nat));
        assert(16 * pow_nat(16, (b - 1) as nat) >= pow_nat(16, (b - 1) as nat)) by (nonlinear_arith);
    }
}

/// Whether a payload passes the integrity check: a missing declared checksum
/// always passes, a present one passes exactly when it equals the payload's
/// CRC-32/IEEE checksum.
pub open spec fn checksum_matches(bytes: Seq<u8>, declared: Option<u32>) -> bool {
    match declared {
        Option::None => true,
        Option::Some(d) => d == crc32_of(bytes),
    }
}

/// Integrity check of a payload against an optional declared checksum.
/// Skipped entirely when no checksum is declared.
pub fn verify_checksum(bytes: &[u8], declared: Option<u32>) -> (r: bool)
    ensures
        r == checksum_matches(bytes@, declared),
{
    match declared {
        Option::None => true,
        Option::Some(d) => d == crc32_ieee(bytes),
    }
}

} // verus!
