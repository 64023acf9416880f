//! Chain-id handling for the bootstrap probe: decoding a 0x-prefixed hex
//! chain id, and rendering a chain id as a decimal string for comparison
//! against the expected id.

use vstd::prelude::*;
use crate::strutil::push_char;

verus! {

/// The value of a hex digit, or -1 for any other character.
pub open spec fn spec_hex_val(c: char) -> int {
    if 48 <= c as u32 && c as u32 <= 57 {
        c as u32 - 48
    } else if 97 <= c as u32 && c as u32 <= 102 {
        c as u32 - 97 + 10
    } else if 65 <= c as u32 && c as u32 <= 70 {
        c as u32 - 65 + 10
    } else {
        -1
    }
}

/// Whether a character is a hex digit (either case).
pub open spec fn is_hex_digit(c: char) -> bool {
    spec_hex_val(c) >= 0
}

/// The value of a hex digit string read most-significant-first into an
/// accumulator.
pub open spec fn hex_digits_value(s: Seq<char>, acc: int) -> int
    decreases s.len(),
{
    if s.len() == 0 {
        acc
    } else {
        hex_digits_value(s.drop_first(), acc * 16 + spec_hex_val(s.first()))
    }
}

/// Whether every character of a string is a hex digit.
pub open spec fn all_hex_digits(s: Seq<char>) -> bool {
    forall|i: int| 0 <= i < s.len() ==> is_hex_digit(s[i])
}

/// The chain id encoded by a probe payload: the payload must be `0x`
/// followed by at least one hex digit, and the value must fit in 64 bits;
/// any other payload is malformed.
pub open spec fn spec_decode_chain_id(s: Seq<char>) -> Option<u64> {
    if s.len() >= 3 && s[0] == '0' && s[1] == 'x' && all_hex_digits(
        s.subrange(2, s.len() as int),
    ) && hex_digits_value(s.subrange(2, s.len() as int), 0) <= u64::MAX {
        Some(hex_digits_value(s.subrange(2, s.len() as int), 0) as u64)
    } else {
        None
    }
}

/// Folding more hex digits onto a nonnegative accumulator never shrinks it.
proof fn lemma_hex_value_lower_bound(s: Seq<char>, acc: int)
    requires
        acc >= 0,
        all_hex_digits(s),
    ensures
        hex_digits_value(s, acc) >= acc,
    decreases s.len(),
{
    if s.len() > 0 {
        assert(is_hex_digit(s.first()));
        assert(all_hex_digits(s.drop_first())) by {
            assert(forall|i: int| 0 <= i < s.len() - 1 ==> s.drop_first()[i] == s[i + 1]);
        }
        lemma_hex_value_lower_bound(s.drop_first(), acc * 16 + spec_hex_val(s.first()));
    }
}

/// The value of a single hex digit character, if it is one.
fn hex_val(c: char) -> (r: Option<u8>)
    ensures
        r matches Some(v) ==> spec_hex_val(c) == v,
        r is None <==> !is_hex_digit(c),
{
    let u = c as u32;
    if 48 <= u && u <= 57 {
        Some((u - 48) as u8)
    } else if 97 <= u && u <= 102 {
        Some((u - 97 + 10) as u8)
    } else if 65 <= u && u <= 70 {
        Some((u - 65 + 10) as u8)
    } else {
        None
    }
}

/// Decodes a probe payload as a 0x-prefixed hex chain id.
pub fn decode_chain_id(s: &str) -> (r: Option<u64>)
    ensures
        r == spec_decode_chain_id(s@),
{
    let len = s.unicode_len();
    if len < 3 {
        return None;
    }
    if s.get_char(0) != '0' || s.get_char(1) != 'x' {
        return None;
    }
    let ghost digits = s@.subrange(2, s@.len() as int);
    let mut acc: u64 = 0;
    let mut i: usize = 2;
    while i < len
        invariant
            2 <= i <= len,
            len == s@.len(),
            s@.len() >= 3,
            digits == s@.subrange(2, s@.len() as int),
            all_hex_digits(s@.subrange(2, i as int)),
            hex_digits_value(digits, 0) == hex_digits_value(
                s@.subrange(i as int, s@.len() as int),
                acc as int,
            ),
        decreases len - i,
    {
        let c = s.get_char(i);
        let ghost rest = s@.subrange(i as int, s@.len() as int);
        let d = match hex_val(c) {
            Some(d) => d,
            None => {
                proof {
                    assert(s@.subrange(2, s@.len() as int)[i - 2] == c);
                }
                return None;
            },
        };
        proof {
            assert(rest.first() == c);
            assert(rest.drop_first() =~= s@.subrange(i + 1, s@.len() as int));
            assert(hex_digits_value(rest, acc as int) == hex_digits_value(
                rest.drop_first(),
                acc as int * 16 + spec_hex_val(c),
            ));
        }
        if acc > (u64::MAX - d as u64) / 16 {
            // The value held so far already overflows 64 bits once this
            // digit lands; later digits can only grow it further.
            proof {
                assert(acc as int * 16 + spec_hex_val(c) > u64::MAX) by {
                    let m = (u64::MAX - d as u64) as int;
                    assert(16 * (m / 16) + m % 16 == m);
                    assert(m % 16 < 16);
                    assert(acc as int >= m / 16 + 1);
                }
                if all_hex_digits(digits) {
                    assert forall|j: int| 0 <= j < rest.drop_first().len() implies is_hex_digit(
                        #[trigger] rest.drop_first()[j],
                    ) by {
                        assert(rest.drop_first()[j] == digits[i - 1 + j]);
                    }
                    lemma_hex_value_lower_bound(
                        rest.drop_first(),
                        acc as int * 16 + spec_hex_val(c),
                    );
                }
            }
            return None;
        }
        acc = acc * 16 + d as u64;
        i = i + 1;
        proof {
            assert forall|j: int| 0 <= j < i - 2 implies is_hex_digit(
                #[trigger] s@.subrange(2, i as int)[j],
            ) by {
                assert(s@.subrange(2, i as int)[j] == s@[2 + j]);
                if j < i - 3 {
                    assert(s@.subrange(2, i as int - 1)[j] == s@[2 + j]);
                    assert(is_hex_digit(s@.subrange(2, i as int - 1)[j]));
                } else {
                    assert(s@[2 + j] == c);
                }
            }
        }
    }
    proof {
        assert(s@.subrange(2, i as int) =~= digits);
        assert(s@.subrange(i as int, s@.len() as int).len() == 0);
        assert(hex_digits_value(s@.subrange(i as int, s@.len() as int), acc as int) == acc as int);
    }
    Some(acc)
}

/// The decimal digit characters of a number, most significant first.
pub open spec fn decimal_digits(n: nat) -> Seq<char>
    decreases n,
{
    if n < 10 {
        seq![spec_digit_char(n as int)]
    } else {
        decimal_digits(n / 10) + seq![spec_digit_char((n % 10) as int)]
    }
}

/// The character for a single decimal digit.
pub open spec fn spec_digit_char(d: int) -> char {
    if d == 0 {
        '0'
    } else if d == 1 {
        '1'
    } else if d == 2 {
        '2'
    } else if d == 3 {
        '3'
    } else if d == 4 {
        '4'
    } else if d == 5 {
        '5'
    } else if d == 6 {
        '6'
    } else if d == 7 {
        '7'
    } else if d == 8 {
        '8'
    } else {
        '9'
    }
}

/// The character for a single decimal digit.
pub fn digit_char(d: u8) -> (c: char)
    requires
        d < 10,
    ensures
        c == spec_digit_char(d as int),
{
    if d == 0 {
        '0'
    } else if d == 1 {
        '1'
    } else if d == 2 {
        '2'
    } else if d == 3 {
        '3'
    } else if d == 4 {
        '4'
    } else if d == 5 {
        '5'
    } else if d == 6 {
        '6'
    } else if d == 7 {
        '7'
    } else if d == 8 {
        '8'
    } else {
        '9'
    }
}

/// Renders a chain id as its canonical decimal string.
pub fn u64_to_decimal(n: u64) -> (s: String)
    ensures
        s@ == decimal_digits(n as nat),
    decreases n,
{
    if n < 10 {
        let mut s = String::new();
        push_char(&mut s, digit_char(n as u8));
        proof {
            assert(s@ =~= decimal_digits(n as nat));
        }
        s
    } else {
        let mut s = u64_to_decimal(n / 10);
        push_char(&mut s, digit_char((n % 10) as u8));
        proof {
            assert(s@ =~= decimal_digits(n as nat));
        }
        s
    }
}

} // verus!
