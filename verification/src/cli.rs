//! The command-line front end: two commands, `balance` and
//! `send <amount> <address>`, parsed from a list of argument strings.

use vstd::prelude::*;
use vstd::slice::slice_index_get;
use vstd::string::StringExecFns;

use crate::errors::BitcoinError;

verus! {

/// A parsed command.
#[derive(Debug, Clone, PartialEq, Eq)]
pub enum CliCommand {
    Send { amount: u64, address: String },
    Balance,
}

/// A decimal digit.
pub open spec fn is_dec_digit(c: char) -> bool {
    '0' <= c && c <= '9'
}

/// A non-empty, all-digit character sequence.
pub open spec fn dec_digits(s: Seq<char>) -> bool {
    s.len() > 0 && forall|k: int| 0 <= k < s.len() ==> is_dec_digit(#[trigger] s[k])
}

/// The value of a digit sequence read in base ten.
pub open spec fn dec_value(s: Seq<char>) -> int
    decreases s.len(),
{
    if s.len() == 0 {
        0
    } else {
        dec_value(s.drop_last()) * 10 + (s.last() as int - 48)
    }
}

/// The digits of an amount: everything after one optional leading plus
/// sign.
pub open spec fn amount_digits(s: Seq<char>) -> Seq<char> {
    if s.len() > 0 && s[0] == '+' {
        s.drop_first()
    } else {
        s
    }
}

/// What an amount string parses to: its base-ten value, if the string is
/// an optional plus sign followed by at least one digit and the value fits
/// in 64 bits; nothing otherwise.
pub open spec fn spec_parse_amount(s: Seq<char>) -> Option<u64> {
    let d = amount_digits(s);
    if dec_digits(d) && dec_value(d) <= u64::MAX {
        Some(dec_value(d) as u64)
    } else {
        None
    }
}

proof fn lemma_dec_value_nonneg(d: Seq<char>)
    requires
        forall|k: int| 0 <= k < d.len() ==> is_dec_digit(#[trigger] d[k]),
    ensures
        dec_value(d) >= 0,
    decreases d.len(),
{
    if d.len() > 0 {
        lemma_dec_value_nonneg(d.drop_last());
    }
}

/// The value of a digit sequence is at least the value of any of its
/// prefixes.
proof fn lemma_dec_value_prefix_le(d: Seq<char>, m: int)
    requires
        0 <= m <= d.len(),
        forall|k: int| 0 <= k < d.len() ==> is_dec_digit(#[trigger] d[k]),
    ensures
        dec_value(d.subrange(0, m)) <= dec_value(d),
    decreases d.len() - m,
{
    if m == d.len() {
        assert(d.subrange(0, m) =~= d);
    } else {
        assert(d.subrange(0, m + 1).drop_last() =~= d.subrange(0, m));
        assert(d.subrange(0, m + 1).last() == d[m]);
        lemma_dec_value_nonneg(d.subrange(0, m));
        lemma_dec_value_prefix_le(d, m + 1);
    }
}

/// Parses a non-negative 64-bit decimal amount: an optional leading plus
/// sign, then at least one digit; rejects anything else and any value over
/// the 64-bit range.
#[verifier::loop_isolation(false)]
pub fn parse_amount(s: &str) -> (r: Option<u64>)
    ensures
        r == spec_parse_amount(s@),
{
    let ghost d = amount_digits(s@);
    if !s.is_ascii() {
        proof {
            if dec_digits(d) {
                assert forall|i: int| 0 <= i < s@.len() implies '\0' <= #[trigger] s@[i]
                    <= '\u{7f}' by {
                    if s@.len() > 0 && s@[0] == '+' {
                        if i > 0 {
                            assert(d[i - 1] == s@[i]);
                            assert(is_dec_digit(d[i - 1]));
                        }
                    } else {
                        assert(d[i] == s@[i]);
                        assert(is_dec_digit(d[i]));
                    }
                }
                assert(vstd::string::is_ascii(s));
            }
        }
        return None;
    }
    proof {
        vstd::string::is_ascii_spec_bytes(s);
    }
    let bytes = s.as_bytes();
    assert(bytes@.len() == s@.len());
    assert(forall|k: int| 0 <= k < s@.len() ==> bytes@[k] == #[trigger] s@[k] as u8);
    let n = bytes.len();
    let mut idx: usize = 0;
    if n > 0 && *slice_index_get(bytes, 0) == 43 {
        proof {
            assert(s@[0] as u8 == 43);
            assert(s@[0] == '+') by {
                assert('\0' <= s@[0] <= '\u{7f}');
                assert(s@[0] as int == 43);
            }
        }
        idx = 1;
    } else {
        proof {
            if s@.len() > 0 {
                assert(s@[0] != '+') by {
                    if s@[0] == '+' {
                        assert(s@[0] as u8 == 43);
                    }
                }
            }
        }
    }
    proof {
        assert(d.len() == s@.len() - idx);
        assert(forall|k: int| 0 <= k < d.len() ==> #[trigger] d[k] == s@[k + idx]);
    }
    if idx >= n {
        proof {
            assert(d.len() == 0);
        }
        return None;
    }
    let mut val: u64 = 0;
    let mut i: usize = idx;
    proof {
        assert(d.subrange(0, 0) =~= Seq::<char>::empty());
    }
    while i < n
        invariant
            idx <= i <= n,
            forall|k: int| 0 <= k < i - idx ==> is_dec_digit(#[trigger] d[k]),
            val == dec_value(d.subrange(0, i - idx)),
        decreases n - i,
    {
        let b = *slice_index_get(bytes, i);
        let ghost c = s@[i as int];
        proof {
            assert(c as u8 == b);
            assert('\0' <= c <= '\u{7f}');
            assert(c as int == b as int);
            assert(d[i - idx] == c);
        }
        if b < 48 || b > 57 {
            proof {
                assert(!is_dec_digit(c));
                assert(!dec_digits(d));
            }
            return None;
        }
        let digit = (b - 48) as u64;
        if val > (u64::MAX - digit) / 10 {
            proof {
                let m = i - idx;
                assert(d.subrange(0, m + 1).drop_last() =~= d.subrange(0, m));
                assert(d.subrange(0, m + 1).last() == d[m]);
                assert(dec_value(d.subrange(0, m + 1)) == val * 10 + digit);
                assert(val * 10 + digit > u64::MAX) by (nonlinear_arith)
                    requires
                        val > (u64::MAX - digit) / 10,
                        0 <= digit <= 9,
                {}
                if dec_digits(d) {
                    lemma_dec_value_prefix_le(d, m + 1);
                    assert(dec_value(d) > u64::MAX);
                }
            }
            return None;
        }
        proof {
            assert(val * 10 + digit <= u64::MAX) by (nonlinear_arith)
                requires
                    val <= (u64::MAX - digit) / 10,
                    0 <= digit <= 9,
            {}
            let m = i - idx;
            assert(d.subrange(0, m + 1).drop_last() =~= d.subrange(0, m));
            assert(d.subrange(0, m + 1).last() == d[m]);
        }
        val = val * 10 + digit;
        i += 1;
    }
    proof {
        assert(d.subrange(0, d.len() as int) =~= d);
        assert(dec_digits(d));
        assert(dec_value(d) == val);
    }
    Some(val)
}

/// Compares two strings by contents.
fn str_eq(a: &String, b: &String) -> (r: bool)
    ensures
        r == (a@ == b@),
{
    a.eq(b)
}

/// Parses the process arguments into a command.
///
/// `balance` alone is the balance query; `send <amount> <address>` is a
/// payment, whose amount must be a non-negative 64-bit decimal.  Anything
/// else is rejected: no arguments, an unknown command, or `send` with the
/// wrong number of arguments.
pub fn parse_cli_args(args: &[String]) -> (r: Result<CliCommand, BitcoinError>)
    ensures
        args@.len() == 0 ==> (r matches Err(BitcoinError::ParseError(m)) && m@
            == "No command provided"@),
        args@.len() == 1 && args@[0]@ == "balance"@ ==> r == Ok::<CliCommand, BitcoinError>(
            CliCommand::Balance,
        ),
        args@.len() == 1 && args@[0]@ == "send"@ ==> (r matches Err(BitcoinError::ParseError(m))
            && m@ == "Send requires additional arguments: amount and address"@),
        args@.len() == 1 && args@[0]@ != "balance"@ && args@[0]@ != "send"@ ==> (r matches Err(
            BitcoinError::ParseError(m),
        ) && m@ == "Invalid command"@),
        args@.len() >= 2 && args@[0]@ != "send"@ ==> (r matches Err(BitcoinError::ParseError(m))
            && m@ == "Invalid command"@),
        args@.len() >= 2 && args@.len() != 3 && args@[0]@ == "send"@ ==> (r matches Err(
            BitcoinError::ParseError(m),
        ) && m@ == "Send requires additional arguments: amount and address"@),
        args@.len() == 3 && args@[0]@ == "send"@ ==> match spec_parse_amount(args@[1]@) {
            Some(v) => (r matches Ok(CliCommand::Send { amount, address }) && amount == v
                && address@ == args@[2]@),
            None => r == Err::<CliCommand, BitcoinError>(BitcoinError::InvalidAmount),
        },
{
    proof {
        reveal_strlit("balance");
        reveal_strlit("send");
        assert("balance"@.len() == 7);
        assert("send"@.len() == 4);
        assert("balance"@ != "send"@);
    }
    if args.len() == 0 {
        return Err(BitcoinError::ParseError("No command provided".to_owned()));
    }
    let cmd = slice_index_get(args, 0);
    let balance_word = "balance".to_owned();
    let send_word = "send".to_owned();
    if args.len() == 1 {
        if str_eq(cmd, &balance_word) {
            return Ok(CliCommand::Balance);
        }
        if str_eq(cmd, &send_word) {
            return Err(
                BitcoinError::ParseError(
                    "Send requires additional arguments: amount and address".to_owned(),
                ),
            );
        }
        return Err(BitcoinError::ParseError("Invalid command".to_owned()));
    }
    if !str_eq(cmd, &send_word) {
        return Err(BitcoinError::ParseError("Invalid command".to_owned()));
    }
    if args.len() != 3 {
        return Err(
            BitcoinError::ParseError(
                "Send requires additional arguments: amount and address".to_owned(),
            ),
        );
    }
    let amount_arg = slice_index_get(args, 1);
    match parse_amount(amount_arg.as_str()) {
        Some(amount) => {
            let address = slice_index_get(args, 2).clone();
            Ok(CliCommand::Send { amount, address })
        },
        None => Err(BitcoinError::InvalidAmount),
    }
}

} // verus!
