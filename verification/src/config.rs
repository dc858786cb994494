//! Process configuration: the listening port and the log format, decided
//! from plain environment values. Reading the environment itself is the
//! embedding application's work.
use crate::text::{all_dec_digits, dec_seq_val, is_dec_digit, is_dec_digit_exec};
use vstd::prelude::*;
use vstd::string::*;

verus! {

/// The service's configuration.
#[derive(Debug, Clone, Copy, PartialEq, Eq, Structural)]
pub struct Config {
    pub log_json: bool,
    pub port: u16,
}

/// The port a text denotes: an optional `+` sign, then only digits, with a
/// value that fits in sixteen bits — as the standard numeric parser accepts
/// it.
pub open spec fn port_of_text(s: Seq<char>) -> Option<u16> {
    let digits = if s.len() > 0 && s[0] == '+' {
        s.drop_first()
    } else {
        s
    };
    if digits.len() > 0 && all_dec_digits(digits) && dec_seq_val(digits) < 65536 {
        Option::Some(dec_seq_val(digits) as u16)
    } else {
        Option::None
    }
}

/// Parses a port number: an optional `+` sign and digits, in range.
pub fn parse_port(s: &str) -> (r: Option<u16>)
    ensures
        r == port_of_text(s@),
{
    let n: usize = s.unicode_len();
    let start: usize = if n > 0 && s.get_char(0) == '+' {
        1
    } else {
        0
    };
    let ghost digits = if s@.len() > 0 && s@[0] == '+' {
        s@.drop_first()
    } else {
        s@
    };
    proof {
        if start == 1 {
            assert(digits =~= s@.skip(1));
        } else {
            assert(digits =~= s@);
        }
    }
    if start >= n {
        proof {
            assert(digits.len() == 0);
        }
        return None;
    }
    let mut acc: u32 = 0;
    let mut k: usize = start;
    proof {
        assert(digits.take(0) =~= Seq::<char>::empty());
    }
    while k < n
        invariant
            start <= k <= n,
            n == s@.len(),
            start <= 1,
            digits == (if s@.len() > 0 && s@[0] == '+' {
                s@.drop_first()
            } else {
                s@
            }),
            digits.len() == n - start,
            forall|m: int| 0 <= m < digits.len() ==> #[trigger] digits[m] == s@[m + start],
            all_dec_digits(digits.take(k - start)),
            acc == dec_seq_val(digits.take(k - start)),
            acc < 65536,
        decreases n - k,
    {
        let c: char = s.get_char(k);
        if !is_dec_digit_exec(c) {
            proof {
                assert(digits[k - start] == s@[k as int]);
                assert(!is_dec_digit(digits[k - start]));
                assert(!all_dec_digits(digits));
            }
            return None;
        }
        proof {
            assert(digits.take(k - start + 1).drop_last() =~= digits.take(k - start));
            assert(digits.take(k - start + 1).last() == digits[k - start]);
            assert(digits[k - start] == s@[k as int]);
        }
        acc = acc * 10 + (c as u32 - 48);
        if acc > 65535 {
            proof {
                lemma_dec_prefix_exceeds(digits, k - start + 1);
            }
            return None;
        }
        k = k + 1;
    }
    proof {
        assert(digits.take(n - start) =~= digits);
    }
    Some(acc as u16)
}

/// Once a digit prefix exceeds the range, the whole number does.
proof fn lemma_dec_prefix_exceeds(digits: Seq<char>, p: int)
    requires
        0 <= p <= digits.len(),
        dec_seq_val(digits.take(p)) > 65535,
    ensures
        dec_seq_val(digits) > 65535,
    decreases digits.len() - p,
{
    if p < digits.len() {
        assert(digits.take(p + 1).drop_last() =~= digits.take(p));
        assert(dec_seq_val(digits.take(p + 1)) == dec_seq_val(digits.take(p)) * 10
            + crate::text::dec_digit_val(digits.take(p + 1).last()));
        assert(dec_seq_val(digits.take(p)) * 10 >= dec_seq_val(digits.take(p))) by (nonlinear_arith)
            requires
                dec_seq_val(digits.take(p)) >= 0,
        ;
        lemma_dec_prefix_exceeds(digits, p + 1);
    } else {
        assert(digits.take(p) =~= digits);
    }
}

/// Builds the configuration from the raw environment values: a missing port
/// falls back to 3000, an unparsable one is an error the caller surfaces,
/// and JSON logging is on exactly when its value is `1`.
pub fn config_from_values(port_text: Option<&str>, log_json_text: Option<&str>) -> (r: Option<
    Config,
>)
    ensures
        (match port_text {
            Option::Some(p) => (match port_of_text(p@) {
                Option::Some(v) => r is Some && r.unwrap().port == v,
                Option::None => r is None,
            }),
            Option::None => r is Some && r.unwrap().port == 3000,
        }),
        r is Some ==> r.unwrap().log_json == (log_json_text matches Option::Some(v) && v@
            == "1"@),
{
    let port: u16 = match port_text {
        Option::Some(p) => {
            match parse_port(p) {
                Option::Some(v) => v,
                Option::None => {
                    return None;
                },
            }
        },
        Option::None => 3000,
    };
    let log_json: bool = match log_json_text {
        Option::Some(v) => {
            let one = "1".to_owned();
            v.to_owned() == one
        },
        Option::None => false,
    };
    Some(Config { log_json, port })
}

} // verus!
