//! The durable snapshot codec: a whole-pool JSON serialization, read back
//! at cold start. The encoder emits canonical JSON — fixed key order, no
//! extra whitespace — and the decoder parses exactly that canonical form;
//! decoding is proven to invert encoding.

use vstd::prelude::*;
use vstd::string::StringExecFns;
use crate::strutil::push_char;
use crate::chain_id::{decimal_digits, spec_digit_char, digit_char};
use crate::types::{Blockchain, CacheOptions, CacheOptionsModel, InnerData, InnerDataModel, Response,
    ResponseInnerData, ResponseModel, RPC, RpcModel};
use crate::pool::{cache_keys_unique, wf_client, ClientModel, ExecutionClient};

verus! {

// ---------------------------------------------------------------------
// JSON strings
// ---------------------------------------------------------------------
/// The escape of one character inside a JSON string: quotes and
/// backslashes are escaped, everything else is emitted as itself.
pub open spec fn esc_char(c: char) -> Seq<char> {
    if c == '"' || c == '\\' {
        seq!['\\', c]
    } else {
        seq![c]
    }
}

/// The body of a JSON string: each character escaped.
pub open spec fn json_escape(t: Seq<char>) -> Seq<char>
    decreases t.len(),
{
    if t.len() == 0 {
        Seq::<char>::empty()
    } else {
        esc_char(t.first()) + json_escape(t.drop_first())
    }
}

/// An encoded JSON string.
pub open spec fn enc_string(t: Seq<char>) -> Seq<char> {
    seq!['"'] + json_escape(t) + seq!['"']
}

/// Parses the body of a JSON string after its opening quote, folding the
/// unescaped characters onto an accumulator.
pub open spec fn parse_string_body(s: Seq<char>, acc: Seq<char>) -> Option<
    (Seq<char>, Seq<char>),
>
    decreases s.len(),
{
    if s.len() == 0 {
        None
    } else if s[0] == '"' {
        Some((acc, s.skip(1)))
    } else if s[0] == '\\' {
        if s.len() >= 2 && (s[1] == '"' || s[1] == '\\') {
            parse_string_body(s.skip(2), acc.push(s[1]))
        } else {
            None
        }
    } else {
        parse_string_body(s.skip(1), acc.push(s[0]))
    }
}

/// Parses a JSON string from the front.
pub open spec fn parse_string(s: Seq<char>) -> Option<(Seq<char>, Seq<char>)> {
    if s.len() >= 1 && s[0] == '"' {
        parse_string_body(s.skip(1), Seq::<char>::empty())
    } else {
        None
    }
}

/// Parsing an escaped string body up to its closing quote recovers the
/// characters.
proof fn lemma_parse_string_body_roundtrip(t: Seq<char>, acc: Seq<char>, rest: Seq<char>)
    ensures
        parse_string_body(json_escape(t) + seq!['"'] + rest, acc) == Some((acc + t, rest)),
    decreases t.len(),
{
    let s = json_escape(t) + seq!['"'] + rest;
    if t.len() == 0 {
        assert(s[0] == '"');
        assert(s.skip(1) =~= rest);
        assert(acc + t =~= acc);
    } else {
        let c = t.first();
        lemma_parse_string_body_roundtrip(t.drop_first(), acc.push(c), rest);
        if c == '"' || c == '\\' {
            assert(s[0] == '\\');
            assert(s[1] == c);
            assert(s.skip(2) =~= json_escape(t.drop_first()) + seq!['"'] + rest);
            assert(acc.push(c) + t.drop_first() =~= acc + t);
        } else {
            assert(s[0] == c);
            assert(s.skip(1) =~= json_escape(t.drop_first()) + seq!['"'] + rest);
            assert(acc.push(c) + t.drop_first() =~= acc + t);
        }
    }
}

/// Parsing an encoded JSON string followed by anything yields the string
/// and that rest.
pub proof fn lemma_parse_string_roundtrip(t: Seq<char>, rest: Seq<char>)
    ensures
        parse_string(enc_string(t) + rest) == Some((t, rest)),
{
    let s = enc_string(t) + rest;
    assert(s[0] == '"');
    assert(s.skip(1) =~= json_escape(t) + seq!['"'] + rest);
    lemma_parse_string_body_roundtrip(t, Seq::<char>::empty(), rest);
    assert(Seq::<char>::empty() + t =~= t);
}

// ---------------------------------------------------------------------
// JSON numbers (canonical decimal)
// ---------------------------------------------------------------------
/// The value of a single decimal digit character, or -1.
pub open spec fn spec_dec_val(c: char) -> int {
    if 48 <= c as u32 && c as u32 <= 57 {
        c as u32 - 48
    } else {
        -1
    }
}

/// Whether a character is a decimal digit.
pub open spec fn is_dec_digit(c: char) -> bool {
    spec_dec_val(c) >= 0
}

/// Consumes the maximal digit prefix, folding its value onto an
/// accumulator.
pub open spec fn parse_digits(s: Seq<char>, acc: nat) -> (nat, Seq<char>)
    decreases s.len(),
{
    if s.len() == 0 || !is_dec_digit(s[0]) {
        (acc, s)
    } else {
        parse_digits(s.skip(1), acc * 10 + spec_dec_val(s[0]) as nat)
    }
}

/// Parses a JSON number — at least one digit — from the front.
pub open spec fn parse_number(s: Seq<char>) -> Option<(nat, Seq<char>)> {
    if s.len() >= 1 && is_dec_digit(s[0]) {
        Some(parse_digits(s, 0))
    } else {
        None
    }
}

/// Parses a number that must fit 64 bits.
pub open spec fn parse_u64n(s: Seq<char>) -> Option<(u64, Seq<char>)> {
    match parse_number(s) {
        Some((v, r)) => if v <= u64::MAX {
            Some((v as u64, r))
        } else {
            None
        },
        None => None,
    }
}

/// Parses a number that must fit 128 bits.
pub open spec fn parse_u128n(s: Seq<char>) -> Option<(u128, Seq<char>)> {
    match parse_number(s) {
        Some((v, r)) => if v <= u128::MAX {
            Some((v as u128, r))
        } else {
            None
        },
        None => None,
    }
}

/// A rendered number is one or more decimal digits.
proof fn lemma_decimal_digits_shape(n: nat)
    ensures
        decimal_digits(n).len() >= 1,
        forall|i: int| 0 <= i < decimal_digits(n).len() ==> is_dec_digit(
            #[trigger] decimal_digits(n)[i],
        ),
    decreases n,
{
    if n < 10 {
        assert(is_dec_digit(spec_digit_char(n as int)));
    } else {
        lemma_decimal_digits_shape(n / 10);
        let head = decimal_digits(n / 10);
        assert(forall|i: int| 0 <= i < head.len() ==> decimal_digits(n)[i] == head[i]);
        assert(decimal_digits(n).last() == spec_digit_char((n % 10) as int));
        assert(is_dec_digit(spec_digit_char((n % 10) as int)));
    }
}

/// The value of a digit string, folded left onto an accumulator; any
/// non-digit refuses the whole string.
pub open spec fn digits_val(s: Seq<char>, acc: nat) -> Option<nat>
    decreases s.len(),
{
    if s.len() == 0 {
        Some(acc)
    } else if is_dec_digit(s.first()) {
        digits_val(s.drop_first(), acc * 10 + spec_dec_val(s.first()) as nat)
    } else {
        None
    }
}

/// Folding one more digit multiplies the folded value by ten and adds it.
proof fn lemma_digits_val_push(s: Seq<char>, c: char, acc: nat)
    ensures
        digits_val(s.push(c), acc) == (match digits_val(s, acc) {
            Some(v) => if is_dec_digit(c) {
                Some((v * 10 + spec_dec_val(c)) as nat)
            } else {
                None
            },
            None => None,
        }),
    decreases s.len(),
{
    if s.len() == 0 {
        assert(s.push(c).first() == c);
        assert(s.push(c).drop_first() =~= Seq::<char>::empty());
        assert(digits_val(s, acc) == Some(acc));
        if is_dec_digit(c) {
            assert(digits_val(s.push(c), acc) == digits_val(
                Seq::<char>::empty(),
                acc * 10 + spec_dec_val(c) as nat,
            ));
        } else {
            assert(digits_val(s.push(c), acc) is None);
        }
    } else {
        assert(s.push(c).first() == s.first());
        assert(s.push(c).drop_first() =~= s.drop_first().push(c));
        if is_dec_digit(s.first()) {
            lemma_digits_val_push(s.drop_first(), c, acc * 10 + spec_dec_val(s.first()) as nat);
            assert(digits_val(s.push(c), acc) == digits_val(
                s.drop_first().push(c),
                acc * 10 + spec_dec_val(s.first()) as nat,
            ));
        } else {
            assert(digits_val(s.push(c), acc) is None);
            assert(digits_val(s, acc) is None);
        }
    }
}

/// Ten to the `w`.
pub open spec fn pow10(w: nat) -> nat
    decreases w,
{
    if w == 0 {
        1
    } else {
        10 * pow10((w - 1) as nat)
    }
}

/// Folding the rendered digits of a number recovers the number.
proof fn lemma_digits_val_decimal(n: nat)
    ensures
        forall|acc: nat| #[trigger]
            digits_val(decimal_digits(n), acc) == Some(
                (acc * pow10(decimal_digits(n).len()) + n) as nat,
            ),
    decreases n,
{
    if n < 10 {
        assert forall|acc: nat| #[trigger]
            digits_val(decimal_digits(n), acc) == Some(
                (acc * pow10(decimal_digits(n).len()) + n) as nat,
            ) by {
            reveal_with_fuel(pow10, 3);
            reveal_with_fuel(digits_val, 3);
            let d = spec_digit_char(n as int);
            assert(is_dec_digit(d));
            assert(spec_dec_val(d) == n);
            assert(decimal_digits(n) =~= seq![d]);
            assert(seq![d].drop_first() =~= Seq::<char>::empty());
            assert(digits_val(Seq::<char>::empty(), acc * 10 + spec_dec_val(d) as nat) == Some(
                (acc * 10 + n) as nat,
            ));
            assert(digits_val(seq![d], acc) == Some((acc * 10 + n) as nat));
            assert(pow10(1) == 10);
        }
    } else {
        lemma_digits_val_decimal(n / 10);
        assert forall|acc: nat| #[trigger]
            digits_val(decimal_digits(n), acc) == Some(
                (acc * pow10(decimal_digits(n).len()) + n) as nat,
            ) by {
            let head = decimal_digits(n / 10);
            let d = spec_digit_char((n % 10) as int);
            assert(decimal_digits(n) == head.push(d));
            assert(digits_val(head, acc) == Some((acc * pow10(head.len()) + n / 10) as nat));
            lemma_digits_val_push(head, d, acc);
            assert(is_dec_digit(d));
            assert(spec_dec_val(d) == n % 10);
            let p = pow10(head.len());
            let v = (acc * p + n / 10) as nat;
            assert(digits_val(decimal_digits(n), acc) == Some((v * 10 + n % 10) as nat));
            assert(decimal_digits(n).len() == head.len() + 1);
            assert(pow10(decimal_digits(n).len()) == 10 * p);
            assert(v * 10 + n % 10 == acc * (10 * p) + n) by {
                assert((acc * p) * 10 == acc * (10 * p)) by (nonlinear_arith);
                assert((n / 10) * 10 + n % 10 == n);
            }
        }
    }
}

/// A maximal-digit scan of an all-digit prefix followed by a non-digit
/// continuation stops exactly at the continuation.
proof fn lemma_parse_digits_split(s1: Seq<char>, rest: Seq<char>, acc: nat)
    requires
        forall|i: int| 0 <= i < s1.len() ==> is_dec_digit(#[trigger] s1[i]),
        rest.len() == 0 || !is_dec_digit(rest[0]),
        digits_val(s1, acc) is Some,
    ensures
        parse_digits(s1 + rest, acc) == (digits_val(s1, acc)->Some_0, rest),
    decreases s1.len(),
{
    let s = s1 + rest;
    if s1.len() == 0 {
        assert(s =~= rest);
    } else {
        assert(s[0] == s1[0]);
        assert(is_dec_digit(s[0]));
        assert(s.skip(1) =~= s1.drop_first() + rest);
        assert forall|i: int| 0 <= i < s1.drop_first().len() implies is_dec_digit(
            #[trigger] s1.drop_first()[i],
        ) by {
            assert(s1.drop_first()[i] == s1[i + 1]);
        }
        lemma_parse_digits_split(s1.drop_first(), rest, acc * 10 + spec_dec_val(s1[0]) as nat);
    }
}

/// Parsing a rendered number followed by a continuation that does not
/// begin with a digit yields the number and that continuation.
pub proof fn lemma_parse_number_roundtrip(n: nat, rest: Seq<char>)
    requires
        rest.len() == 0 || !is_dec_digit(rest[0]),
    ensures
        parse_number(decimal_digits(n) + rest) == Some((n, rest)),
{
    lemma_decimal_digits_shape(n);
    lemma_digits_val_decimal(n);
    assert(digits_val(decimal_digits(n), 0) == Some((0 * pow10(decimal_digits(n).len()) + n) as nat));
    lemma_parse_digits_split(decimal_digits(n), rest, 0);
    let s = decimal_digits(n) + rest;
    assert(s[0] == decimal_digits(n)[0]);
}

// ---------------------------------------------------------------------
// Fixed literals: booleans, null, chain kinds
// ---------------------------------------------------------------------
/// An encoded truth value.
pub open spec fn enc_bool(b: bool) -> Seq<char> {
    if b {
        seq!['t', 'r', 'u', 'e']
    } else {
        seq!['f', 'a', 'l', 's', 'e']
    }
}

/// Parses a truth value from the front.
pub open spec fn parse_bool(s: Seq<char>) -> Option<(bool, Seq<char>)> {
    if s.len() >= 4 && s[0] == 't' && s[1] == 'r' && s[2] == 'u' && s[3] == 'e' {
        Some((true, s.skip(4)))
    } else if s.len() >= 5 && s[0] == 'f' && s[1] == 'a' && s[2] == 'l' && s[3] == 's' && s[4]
        == 'e' {
        Some((false, s.skip(5)))
    } else {
        None
    }
}

/// Parsing an encoded truth value yields it back.
proof fn lemma_parse_bool_roundtrip(b: bool, rest: Seq<char>)
    ensures
        parse_bool(enc_bool(b) + rest) == Some((b, rest)),
{
    let s = enc_bool(b) + rest;
    if b {
        assert(s.skip(4) =~= rest);
    } else {
        assert(s.skip(5) =~= rest);
    }
}

/// An encoded chain kind: its name as a JSON string.
pub open spec fn enc_chain(b: Blockchain) -> Seq<char> {
    match b {
        Blockchain::Ethereum => seq!['"', 'E', 't', 'h', 'e', 'r', 'e', 'u', 'm', '"'],
        Blockchain::Evm => seq!['"', 'E', 'v', 'm', '"'],
        Blockchain::Solana => seq!['"', 'S', 'o', 'l', 'a', 'n', 'a', '"'],
    }
}

/// Parses a chain kind from the front.
pub open spec fn parse_chain(s: Seq<char>) -> Option<(Blockchain, Seq<char>)> {
    if s.len() >= 10 && s[0] == '"' && s[1] == 'E' && s[2] == 't' && s[3] == 'h' && s[4] == 'e'
        && s[5] == 'r' && s[6] == 'e' && s[7] == 'u' && s[8] == 'm' && s[9] == '"' {
        Some((Blockchain::Ethereum, s.skip(10)))
    } else if s.len() >= 5 && s[0] == '"' && s[1] == 'E' && s[2] == 'v' && s[3] == 'm' && s[4]
        == '"' {
        Some((Blockchain::Evm, s.skip(5)))
    } else if s.len() >= 8 && s[0] == '"' && s[1] == 'S' && s[2] == 'o' && s[3] == 'l' && s[4]
        == 'a' && s[5] == 'n' && s[6] == 'a' && s[7] == '"' {
        Some((Blockchain::Solana, s.skip(8)))
    } else {
        None
    }
}

/// Parsing an encoded chain kind yields it back.
proof fn lemma_parse_chain_roundtrip(b: Blockchain, rest: Seq<char>)
    ensures
        parse_chain(enc_chain(b) + rest) == Some((b, rest)),
{
    let s = enc_chain(b) + rest;
    match b {
        Blockchain::Ethereum => {
            assert(s.skip(10) =~= rest);
        },
        Blockchain::Evm => {
            assert(s.skip(5) =~= rest);
        },
        Blockchain::Solana => {
            assert(s.skip(8) =~= rest);
        },
    }
}

/// Expects a fixed literal at the front and consumes it.
pub open spec fn expect(s: Seq<char>, lit: Seq<char>) -> Option<Seq<char>> {
    if s.len() >= lit.len() && s.take(lit.len() as int) == lit {
        Some(s.skip(lit.len() as int))
    } else {
        None
    }
}

/// Expecting a literal on itself-plus-anything consumes exactly it.
proof fn lemma_expect_roundtrip(lit: Seq<char>, rest: Seq<char>)
    ensures
        expect(lit + rest, lit) == Some(rest),
{
    assert((lit + rest).take(lit.len() as int) =~= lit);
    assert((lit + rest).skip(lit.len() as int) =~= rest);
}

// ---------------------------------------------------------------------
// Comma-separated lists inside brackets or braces
// ---------------------------------------------------------------------
/// The encodings of the items after the first, each preceded by a comma.
pub open spec fn sep_rest<V>(items: Seq<V>, f: spec_fn(V) -> Seq<char>) -> Seq<char>
    decreases items.len(),
{
    if items.len() == 0 {
        Seq::<char>::empty()
    } else {
        seq![','] + f(items.first()) + sep_rest(items.drop_first(), f)
    }
}

/// The comma-separated encodings of all items.
pub open spec fn sep_list<V>(items: Seq<V>, f: spec_fn(V) -> Seq<char>) -> Seq<char> {
    if items.len() == 0 {
        Seq::<char>::empty()
    } else {
        f(items.first()) + sep_rest(items.drop_first(), f)
    }
}

/// An encoded JSON array.
pub open spec fn enc_array<V>(items: Seq<V>, f: spec_fn(V) -> Seq<char>) -> Seq<char> {
    seq!['['] + sep_list(items, f) + seq![']']
}

/// An encoded JSON object (the item encoder covers one whole
/// key-colon-value entry).
pub open spec fn enc_object<V>(items: Seq<V>, f: spec_fn(V) -> Seq<char>) -> Seq<char> {
    seq!['{'] + sep_list(items, f) + seq!['}']
}

/// Parses `, item` groups until the closing character, with a fuel bound
/// on the item count.
pub open spec fn parse_sep_rest<V>(
    s: Seq<char>,
    p: spec_fn(Seq<char>) -> Option<(V, Seq<char>)>,
    close: char,
    fuel: nat,
) -> Option<(Seq<V>, Seq<char>)>
    decreases fuel,
{
    if s.len() >= 1 && s[0] == close {
        Some((Seq::<V>::empty(), s.skip(1)))
    } else if fuel > 0 && s.len() >= 1 && s[0] == ',' {
        match p(s.skip(1)) {
            Some((v, r)) => match parse_sep_rest(r, p, close, (fuel - 1) as nat) {
                Some((vs, r2)) => Some((seq![v] + vs, r2)),
                None => None,
            },
            None => None,
        }
    } else {
        None
    }
}

/// Parses a bracketed comma-separated list: empty, or a first item and
/// then `, item` groups until the close.
pub open spec fn parse_seplist<V>(
    s: Seq<char>,
    p: spec_fn(Seq<char>) -> Option<(V, Seq<char>)>,
    open: char,
    close: char,
) -> Option<(Seq<V>, Seq<char>)> {
    if s.len() >= 1 && s[0] == open {
        let r0 = s.skip(1);
        if r0.len() >= 1 && r0[0] == close {
            Some((Seq::<V>::empty(), r0.skip(1)))
        } else {
            match p(r0) {
                Some((v, r)) => match parse_sep_rest(r, p, close, r.len()) {
                    Some((vs, r2)) => Some((seq![v] + vs, r2)),
                    None => None,
                },
                None => None,
            }
        }
    } else {
        None
    }
}

/// Parses a JSON array with the given item parser.
pub open spec fn parse_array<V>(
    s: Seq<char>,
    p: spec_fn(Seq<char>) -> Option<(V, Seq<char>)>,
) -> Option<(Seq<V>, Seq<char>)> {
    parse_seplist(s, p, '[', ']')
}

/// Parses a JSON object with the given entry parser.
pub open spec fn parse_object<V>(
    s: Seq<char>,
    p: spec_fn(Seq<char>) -> Option<(V, Seq<char>)>,
) -> Option<(Seq<V>, Seq<char>)> {
    parse_seplist(s, p, '{', '}')
}

/// The separated tail is at least as long as its item count.
proof fn lemma_sep_rest_len<V>(items: Seq<V>, f: spec_fn(V) -> Seq<char>)
    ensures
        sep_rest(items, f).len() >= items.len(),
    decreases items.len(),
{
    if items.len() > 0 {
        lemma_sep_rest_len(items.drop_first(), f);
    }
}

/// Parsing the separated tail back, when the item parser inverts the item
/// encoder at list continuations, yields the items and the rest.
proof fn lemma_parse_sep_rest_roundtrip<V>(
    items: Seq<V>,
    f: spec_fn(V) -> Seq<char>,
    p: spec_fn(Seq<char>) -> Option<(V, Seq<char>)>,
    close: char,
    rest: Seq<char>,
    fuel: nat,
)
    requires
        close != ',',
        fuel >= items.len(),
        forall|k: int, r: Seq<char>|
            0 <= k < items.len() && r.len() >= 1 && (r[0] == ',' || r[0] == close)
                ==> #[trigger] p(f(items[k]) + r) == Some((items[k], r)),
    ensures
        parse_sep_rest(sep_rest(items, f) + seq![close] + rest, p, close, fuel) == Some(
            (items, rest),
        ),
    decreases items.len(),
{
    let s = sep_rest(items, f) + seq![close] + rest;
    if items.len() == 0 {
        assert(s[0] == close);
        assert(s.skip(1) =~= rest);
        assert(items =~= Seq::<V>::empty());
    } else {
        let tail = items.drop_first();
        let cont = sep_rest(tail, f) + seq![close] + rest;
        assert(s[0] == ',');
        assert(s.skip(1) =~= f(items[0]) + cont);
        assert(cont.len() >= 1);
        assert(cont[0] == ',' || cont[0] == close) by {
            if tail.len() > 0 {
                assert(cont[0] == sep_rest(tail, f)[0]);
            } else {
                assert(sep_rest(tail, f).len() == 0);
                assert(cont[0] == close);
            }
        }
        assert(p(f(items[0]) + cont) == Some((items[0], cont)));
        assert forall|k: int, r: Seq<char>|
            0 <= k < tail.len() && r.len() >= 1 && (r[0] == ',' || r[0] == close) implies #[trigger] p(
            f(tail[k]) + r,
        ) == Some((tail[k], r)) by {
            assert(tail[k] == items[k + 1]);
            assert(p(f(items[k + 1]) + r) == Some((items[k + 1], r)));
        }
        lemma_parse_sep_rest_roundtrip(tail, f, p, close, rest, (fuel - 1) as nat);
        assert(seq![items[0]] + tail =~= items);
    }
}

/// Parsing an encoded separated list, when the item parser inverts the
/// item encoder at list continuations and no item encoding is empty or
/// starts with the closing character, yields the items and the rest.
proof fn lemma_parse_seplist_roundtrip<V>(
    items: Seq<V>,
    f: spec_fn(V) -> Seq<char>,
    p: spec_fn(Seq<char>) -> Option<(V, Seq<char>)>,
    open: char,
    close: char,
    rest: Seq<char>,
)
    requires
        close != ',',
        forall|k: int| #![trigger f(items[k])]
            0 <= k < items.len() ==> f(items[k]).len() >= 1 && f(items[k])[0] != close,
        forall|k: int, r: Seq<char>|
            0 <= k < items.len() && r.len() >= 1 && (r[0] == ',' || r[0] == close)
                ==> #[trigger] p(f(items[k]) + r) == Some((items[k], r)),
    ensures
        parse_seplist(
            seq![open] + sep_list(items, f) + seq![close] + rest,
            p,
            open,
            close,
        ) == Some((items, rest)),
{
    let s = seq![open] + sep_list(items, f) + seq![close] + rest;
    assert(s[0] == open);
    if items.len() == 0 {
        assert(sep_list(items, f).len() == 0);
        assert(s.skip(1)[0] == close);
        assert(s.skip(1).skip(1) =~= rest);
        assert(items =~= Seq::<V>::empty());
    } else {
        let tail = items.drop_first();
        let cont = sep_rest(tail, f) + seq![close] + rest;
        assert(s.skip(1) =~= f(items[0]) + cont);
        assert(f(items[0]).len() >= 1);
        assert(s.skip(1)[0] == f(items[0])[0]);
        assert(s.skip(1)[0] != close);
        assert(cont.len() >= 1);
        assert(cont[0] == ',' || cont[0] == close) by {
            if tail.len() > 0 {
                assert(cont[0] == sep_rest(tail, f)[0]);
            } else {
                assert(sep_rest(tail, f).len() == 0);
                assert(cont[0] == close);
            }
        }
        assert(p(f(items[0]) + cont) == Some((items[0], cont)));
        assert forall|k: int, r: Seq<char>|
            0 <= k < tail.len() && r.len() >= 1 && (r[0] == ',' || r[0] == close) implies #[trigger] p(
            f(tail[k]) + r,
        ) == Some((tail[k], r)) by {
            assert(tail[k] == items[k + 1]);
            assert(p(f(items[k + 1]) + r) == Some((items[k + 1], r)));
        }
        lemma_sep_rest_len(tail, f);
        assert(cont.len() >= tail.len());
        lemma_parse_sep_rest_roundtrip(tail, f, p, close, rest, cont.len());
        assert(seq![items[0]] + tail =~= items);
    }
}

// ---------------------------------------------------------------------
// JSON values, records, endpoints
// ---------------------------------------------------------------------
/// The string encoder, as a function value.
pub open spec fn string_enc() -> spec_fn(Seq<char>) -> Seq<char> {
    |t: Seq<char>| enc_string(t)
}

/// The string parser, as a function value.
pub open spec fn string_parse() -> spec_fn(Seq<char>) -> Option<(Seq<char>, Seq<char>)> {
    |s: Seq<char>| parse_string(s)
}

/// The 64-bit number encoder, as a function value.
pub open spec fn num64_enc() -> spec_fn(u64) -> Seq<char> {
    |x: u64| decimal_digits(x as nat)
}

/// The 64-bit number parser, as a function value.
pub open spec fn num64_parse() -> spec_fn(Seq<char>) -> Option<(u64, Seq<char>)> {
    |s: Seq<char>| parse_u64n(s)
}

/// An encoded object entry whose value is raw JSON text held as a string.
pub open spec fn enc_entry(e: (Seq<char>, Seq<char>)) -> Seq<char> {
    enc_string(e.0) + seq![':'] + enc_string(e.1)
}

/// Parses one string-valued object entry from the front.
pub open spec fn parse_entry(s: Seq<char>) -> Option<((Seq<char>, Seq<char>), Seq<char>)> {
    match parse_string(s) {
        Some((k, r)) => if r.len() >= 1 && r[0] == ':' {
            match parse_string(r.skip(1)) {
                Some((v, r2)) => Some(((k, v), r2)),
                None => None,
            }
        } else {
            None
        },
        None => None,
    }
}

/// The entry encoder, as a function value.
pub open spec fn entry_enc() -> spec_fn((Seq<char>, Seq<char>)) -> Seq<char> {
    |e: (Seq<char>, Seq<char>)| enc_entry(e)
}

/// The entry parser, as a function value.
pub open spec fn entry_parse() -> spec_fn(Seq<char>) -> Option<
    ((Seq<char>, Seq<char>), Seq<char>),
> {
    |s: Seq<char>| parse_entry(s)
}

/// Parsing an encoded entry yields it back.
proof fn lemma_parse_entry_roundtrip(e: (Seq<char>, Seq<char>), rest: Seq<char>)
    ensures
        parse_entry(enc_entry(e) + rest) == Some((e, rest)),
{
    let cont = seq![':'] + enc_string(e.1) + rest;
    assert(enc_entry(e) + rest =~= enc_string(e.0) + cont);
    lemma_parse_string_roundtrip(e.0, cont);
    assert(cont[0] == ':');
    assert(cont.skip(1) =~= enc_string(e.1) + rest);
    lemma_parse_string_roundtrip(e.1, rest);
}

/// An encoded JSON-RPC value, in its untagged JSON shape: a string, an
/// array of strings, an array of numbers, a truth value, or an object of
/// raw-text values.
pub open spec fn enc_inner(d: InnerDataModel) -> Seq<char> {
    match d {
        InnerDataModel::Text(t) => enc_string(t),
        InnerDataModel::TextArray(v) => enc_array(v, string_enc()),
        InnerDataModel::NumberArray(v) => enc_array(v, num64_enc()),
        InnerDataModel::Boolean(b) => enc_bool(b),
        InnerDataModel::Object(es) => enc_object(es, entry_enc()),
    }
}

/// Parses an untagged JSON-RPC value, dispatching on its first
/// characters; an empty array reads as an empty text array.
pub open spec fn parse_inner(s: Seq<char>) -> Option<(InnerDataModel, Seq<char>)> {
    if s.len() < 1 {
        None
    } else if s[0] == '"' {
        match parse_string(s) {
            Some((t, r)) => Some((InnerDataModel::Text(t), r)),
            None => None,
        }
    } else if s[0] == '[' {
        if s.len() >= 2 && s[1] == ']' {
            Some((InnerDataModel::TextArray(Seq::<Seq<char>>::empty()), s.skip(2)))
        } else if s.len() >= 2 && s[1] == '"' {
            match parse_array(s, string_parse()) {
                Some((v, r)) => Some((InnerDataModel::TextArray(v), r)),
                None => None,
            }
        } else if s.len() >= 2 && is_dec_digit(s[1]) {
            match parse_array(s, num64_parse()) {
                Some((v, r)) => Some((InnerDataModel::NumberArray(v), r)),
                None => None,
            }
        } else {
            None
        }
    } else if s[0] == 't' || s[0] == 'f' {
        match parse_bool(s) {
            Some((b, r)) => Some((InnerDataModel::Boolean(b), r)),
            None => None,
        }
    } else if s[0] == '{' {
        match parse_object(s, entry_parse()) {
            Some((es, r)) => Some((InnerDataModel::Object(es), r)),
            None => None,
        }
    } else {
        None
    }
}

/// Whether a value survives the untagged JSON shape: an empty number
/// array reads back as an empty text array, so only nonempty number
/// arrays are faithful.
pub open spec fn inner_faithful(d: InnerDataModel) -> bool {
    match d {
        InnerDataModel::NumberArray(v) => v.len() >= 1,
        _ => true,
    }
}

/// Parsing an encoded faithful value yields it back.
pub proof fn lemma_parse_inner_roundtrip(d: InnerDataModel, rest: Seq<char>)
    requires
        inner_faithful(d),
    ensures
        parse_inner(enc_inner(d) + rest) == Some((d, rest)),
{
    let s = enc_inner(d) + rest;
    match d {
        InnerDataModel::Text(t) => {
            assert(s[0] == '"');
            lemma_parse_string_roundtrip(t, rest);
        },
        InnerDataModel::TextArray(v) => {
            assert(s[0] == '[');
            if v.len() == 0 {
                assert(sep_list(v, string_enc()).len() == 0);
                assert(s[1] == ']');
                assert(s.skip(2) =~= rest);
                assert(v =~= Seq::<Seq<char>>::empty());
            } else {
                assert(sep_list(v, string_enc())[0] == enc_string(v[0])[0]);
                assert(s[1] == '"');
                assert forall|k: int| #![trigger string_enc()(v[k])]
                    0 <= k < v.len() implies string_enc()(v[k]).len() >= 1 && string_enc()(v[k])[0]
                    != ']' by {
                    assert(enc_string(v[k])[0] == '"');
                }
                assert forall|k: int, r: Seq<char>|
                    0 <= k < v.len() && r.len() >= 1 && (r[0] == ',' || r[0]
                        == ']') implies #[trigger] string_parse()(string_enc()(v[k]) + r) == Some(
                    (v[k], r),
                ) by {
                    lemma_parse_string_roundtrip(v[k], r);
                }
                lemma_parse_seplist_roundtrip(v, string_enc(), string_parse(), '[', ']', rest);
                assert(s =~= seq!['['] + sep_list(v, string_enc()) + seq![']'] + rest);
            }
        },
        InnerDataModel::NumberArray(v) => {
            assert(s[0] == '[');
            lemma_decimal_digits_shape(v[0] as nat);
            assert(sep_list(v, num64_enc())[0] == decimal_digits(v[0] as nat)[0]);
            assert(is_dec_digit(s[1]));
            assert(s[1] != ']' && s[1] != '"');
            assert forall|k: int| #![trigger num64_enc()(v[k])]
                0 <= k < v.len() implies num64_enc()(v[k]).len() >= 1 && num64_enc()(v[k])[0]
                != ']' by {
                lemma_decimal_digits_shape(v[k] as nat);
                assert(is_dec_digit(decimal_digits(v[k] as nat)[0]));
            }
            assert forall|k: int, r: Seq<char>|
                0 <= k < v.len() && r.len() >= 1 && (r[0] == ',' || r[0]
                    == ']') implies #[trigger] num64_parse()(num64_enc()(v[k]) + r) == Some(
                (v[k], r),
            ) by {
                assert(!is_dec_digit(r[0]));
                lemma_parse_number_roundtrip(v[k] as nat, r);
            }
            lemma_parse_seplist_roundtrip(v, num64_enc(), num64_parse(), '[', ']', rest);
            assert(s =~= seq!['['] + sep_list(v, num64_enc()) + seq![']'] + rest);
        },
        InnerDataModel::Boolean(b) => {
            if b {
                assert(s[0] == 't');
            } else {
                assert(s[0] == 'f');
            }
            lemma_parse_bool_roundtrip(b, rest);
        },
        InnerDataModel::Object(es) => {
            assert(s[0] == '{');
            assert forall|k: int| #![trigger entry_enc()(es[k])]
                0 <= k < es.len() implies entry_enc()(es[k]).len() >= 1 && entry_enc()(es[k])[0]
                != '}' by {
                assert(enc_entry(es[k])[0] == enc_string(es[k].0)[0]);
                assert(enc_string(es[k].0)[0] == '"');
            }
            assert forall|k: int, r: Seq<char>|
                0 <= k < es.len() && r.len() >= 1 && (r[0] == ',' || r[0]
                    == '}') implies #[trigger] entry_parse()(entry_enc()(es[k]) + r) == Some(
                (es[k], r),
            ) by {
                lemma_parse_entry_roundtrip(es[k], r);
            }
            lemma_parse_seplist_roundtrip(es, entry_enc(), entry_parse(), '{', '}', rest);
            assert(s =~= seq!['{'] + sep_list(es, entry_enc()) + seq!['}'] + rest);
        },
    }
}

/// An encoded optional value: `null`, or the value itself.
pub open spec fn enc_opt_inner(o: Option<InnerDataModel>) -> Seq<char> {
    match o {
        None => seq!['n', 'u', 'l', 'l'],
        Some(d) => enc_inner(d),
    }
}

/// Parses an optional value from the front.
pub open spec fn parse_opt_inner(s: Seq<char>) -> Option<(Option<InnerDataModel>, Seq<char>)> {
    if s.len() >= 4 && s[0] == 'n' && s[1] == 'u' && s[2] == 'l' && s[3] == 'l' {
        Some((None, s.skip(4)))
    } else {
        match parse_inner(s) {
            Some((d, r)) => Some((Some(d), r)),
            None => None,
        }
    }
}

/// Parsing an encoded optional value yields it back.
proof fn lemma_parse_opt_inner_roundtrip(o: Option<InnerDataModel>, rest: Seq<char>)
    requires
        o matches Some(d) ==> inner_faithful(d),
    ensures
        parse_opt_inner(enc_opt_inner(o) + rest) == Some((o, rest)),
{
    let s = enc_opt_inner(o) + rest;
    match o {
        None => {
            assert(s.skip(4) =~= rest);
        },
        Some(d) => {
            assert(s[0] == enc_inner(d)[0]);
            match d {
                InnerDataModel::Text(t) => {
                    assert(s[0] == '"');
                },
                InnerDataModel::TextArray(v) => {
                    assert(s[0] == '[');
                },
                InnerDataModel::NumberArray(v) => {
                    assert(s[0] == '[');
                },
                InnerDataModel::Boolean(b) => {
                    assert(s[0] == 't' || s[0] == 'f');
                },
                InnerDataModel::Object(es) => {
                    assert(s[0] == '{');
                },
            }
            lemma_parse_inner_roundtrip(d, rest);
        },
    }
}

/// The JSON-RPC value encoder, as a function value.
pub open spec fn inner_enc() -> spec_fn(InnerDataModel) -> Seq<char> {
    |d: InnerDataModel| enc_inner(d)
}

/// The JSON-RPC value parser, as a function value.
pub open spec fn inner_parse() -> spec_fn(Seq<char>) -> Option<(InnerDataModel, Seq<char>)> {
    |s: Seq<char>| parse_inner(s)
}

/// An encoded response record.
pub open spec fn enc_response(m: ResponseModel) -> Seq<char> {
    "{\"method\":"@ + enc_string(m.method) + ",\"params\":"@ + enc_array(m.params, inner_enc())
        + ",\"result\":"@ + enc_opt_inner(m.result) + ",\"time_taken\":"@ + decimal_digits(
        m.time_taken as nat,
    ) + ",\"start_time\":"@ + decimal_digits(m.start_time as nat) + seq!['}']
}

/// Parses a response record from the front.
pub open spec fn parse_response(s: Seq<char>) -> Option<(ResponseModel, Seq<char>)> {
    match expect(s, "{\"method\":"@) {
        Some(r1) => match parse_string(r1) {
            Some((method, r2)) => match expect(r2, ",\"params\":"@) {
                Some(r3) => match parse_array(r3, inner_parse()) {
                    Some((params, r4)) => match expect(r4, ",\"result\":"@) {
                        Some(r5) => match parse_opt_inner(r5) {
                            Some((result, r6)) => match expect(r6, ",\"time_taken\":"@) {
                                Some(r7) => match parse_u128n(r7) {
                                    Some((time_taken, r8)) => match expect(
                                        r8,
                                        ",\"start_time\":"@,
                                    ) {
                                        Some(r9) => match parse_u128n(r9) {
                                            Some((start_time, r10)) => if r10.len() >= 1 && r10[0]
                                                == '}' {
                                                Some(
                                                    (
                                                        ResponseModel {
                                                            method,
                                                            params,
                                                            result,
                                                            time_taken,
                                                            start_time,
                                                        },
                                                        r10.skip(1),
                                                    ),
                                                )
                                            } else {
                                                None
                                            },
                                            None => None,
                                        },
                                        None => None,
                                    },
                                    None => None,
                                },
                                None => None,
                            },
                            None => None,
                        },
                        None => None,
                    },
                    None => None,
                },
                None => None,
            },
            None => None,
        },
        None => None,
    }
}

/// Whether a record survives the untagged JSON shape.
pub open spec fn response_faithful(m: ResponseModel) -> bool {
    &&& forall|i: int| 0 <= i < m.params.len() ==> inner_faithful(#[trigger] m.params[i])
    &&& (m.result matches Some(d) ==> inner_faithful(d))
}

/// Parsing an encoded faithful record yields it back.
#[verifier::rlimit(100)]
pub proof fn lemma_parse_response_roundtrip(m: ResponseModel, rest: Seq<char>)
    requires
        response_faithful(m),
    ensures
        parse_response(enc_response(m) + rest) == Some((m, rest)),
{
    let t9 = seq!['}'] + rest;
    let t8 = decimal_digits(m.start_time as nat) + t9;
    let t7 = ",\"start_time\":"@ + t8;
    let t6 = decimal_digits(m.time_taken as nat) + t7;
    let t5 = ",\"time_taken\":"@ + t6;
    let t4 = enc_opt_inner(m.result) + t5;
    let t3 = ",\"result\":"@ + t4;
    let t2 = enc_array(m.params, inner_enc()) + t3;
    let t1 = ",\"params\":"@ + t2;
    let t0 = enc_string(m.method) + t1;
    assert(enc_response(m) + rest =~= "{\"method\":"@ + t0);
    lemma_expect_roundtrip("{\"method\":"@, t0);
    lemma_parse_string_roundtrip(m.method, t1);
    lemma_expect_roundtrip(",\"params\":"@, t2);
    assert forall|k: int| #![trigger inner_enc()(m.params[k])]
        0 <= k < m.params.len() implies inner_enc()(m.params[k]).len() >= 1 && inner_enc()(
        m.params[k],
    )[0] != ']' by {
        let d = m.params[k];
        match d {
            InnerDataModel::Text(t) => {
                assert(enc_inner(d)[0] == '"');
            },
            InnerDataModel::TextArray(v) => {
                assert(enc_inner(d)[0] == '[');
            },
            InnerDataModel::NumberArray(v) => {
                assert(enc_inner(d)[0] == '[');
            },
            InnerDataModel::Boolean(b) => {
                assert(enc_inner(d)[0] == 't' || enc_inner(d)[0] == 'f');
            },
            InnerDataModel::Object(es) => {
                assert(enc_inner(d)[0] == '{');
            },
        }
    }
    assert forall|k: int, r: Seq<char>|
        0 <= k < m.params.len() && r.len() >= 1 && (r[0] == ',' || r[0]
            == ']') implies #[trigger] inner_parse()(inner_enc()(m.params[k]) + r) == Some(
        (m.params[k], r),
    ) by {
        lemma_parse_inner_roundtrip(m.params[k], r);
    }
    lemma_parse_seplist_roundtrip(m.params, inner_enc(), inner_parse(), '[', ']', t3);
    assert(t2 =~= seq!['['] + sep_list(m.params, inner_enc()) + seq![']'] + t3);
    lemma_expect_roundtrip(",\"result\":"@, t4);
    lemma_parse_opt_inner_roundtrip(m.result, t5);
    lemma_expect_roundtrip(",\"time_taken\":"@, t6);
    reveal_strlit(",\"start_time\":");
    assert(t7[0] == ',');
    assert(!is_dec_digit(','));
    lemma_parse_number_roundtrip(m.time_taken as nat, t7);
    lemma_expect_roundtrip(",\"start_time\":"@, t8);
    assert(t9[0] == '}');
    assert(!is_dec_digit('}'));
    lemma_parse_number_roundtrip(m.start_time as nat, t9);
    assert(t9.skip(1) =~= rest);
}

/// The record encoder, as a function value.
pub open spec fn response_enc() -> spec_fn(ResponseModel) -> Seq<char> {
    |m: ResponseModel| enc_response(m)
}

/// The record parser, as a function value.
pub open spec fn response_parse() -> spec_fn(Seq<char>) -> Option<(ResponseModel, Seq<char>)> {
    |s: Seq<char>| parse_response(s)
}

/// Parsing an encoded array of faithful records yields them back.
proof fn lemma_parse_response_array(items: Seq<ResponseModel>, rest: Seq<char>)
    requires
        forall|i: int| 0 <= i < items.len() ==> response_faithful(#[trigger] items[i]),
    ensures
        parse_array(enc_array(items, response_enc()) + rest, response_parse()) == Some(
            (items, rest),
        ),
{
    assert forall|k: int| #![trigger response_enc()(items[k])]
        0 <= k < items.len() implies response_enc()(items[k]).len() >= 1 && response_enc()(
        items[k],
    )[0] != ']' by {
        reveal_strlit("{\"method\":");
        assert(enc_response(items[k])[0] == '{');
    }
    assert forall|k: int, r: Seq<char>|
        0 <= k < items.len() && r.len() >= 1 && (r[0] == ',' || r[0]
            == ']') implies #[trigger] response_parse()(response_enc()(items[k]) + r) == Some(
        (items[k], r),
    ) by {
        lemma_parse_response_roundtrip(items[k], r);
    }
    lemma_parse_seplist_roundtrip(items, response_enc(), response_parse(), '[', ']', rest);
    assert(enc_array(items, response_enc()) + rest =~= seq!['['] + sep_list(
        items,
        response_enc(),
    ) + seq![']'] + rest);
}

/// Parsing an encoded array of strings yields them back.
proof fn lemma_parse_string_array(items: Seq<Seq<char>>, rest: Seq<char>)
    ensures
        parse_array(enc_array(items, string_enc()) + rest, string_parse()) == Some((items, rest)),
{
    assert forall|k: int| #![trigger string_enc()(items[k])]
        0 <= k < items.len() implies string_enc()(items[k]).len() >= 1 && string_enc()(items[k])[0]
        != ']' by {
        assert(enc_string(items[k])[0] == '"');
    }
    assert forall|k: int, r: Seq<char>|
        0 <= k < items.len() && r.len() >= 1 && (r[0] == ',' || r[0]
            == ']') implies #[trigger] string_parse()(string_enc()(items[k]) + r) == Some(
        (items[k], r),
    ) by {
        lemma_parse_string_roundtrip(items[k], r);
    }
    lemma_parse_seplist_roundtrip(items, string_enc(), string_parse(), '[', ']', rest);
    assert(enc_array(items, string_enc()) + rest =~= seq!['['] + sep_list(items, string_enc())
        + seq![']'] + rest);
}

/// An encoded cache slot: the method name keyed to its record.
pub open spec fn enc_slot(e: (Seq<char>, ResponseModel)) -> Seq<char> {
    enc_string(e.0) + seq![':'] + enc_response(e.1)
}

/// Parses one cache slot from the front.
pub open spec fn parse_slot(s: Seq<char>) -> Option<((Seq<char>, ResponseModel), Seq<char>)> {
    match parse_string(s) {
        Some((k, r)) => if r.len() >= 1 && r[0] == ':' {
            match parse_response(r.skip(1)) {
                Some((m, r2)) => Some(((k, m), r2)),
                None => None,
            }
        } else {
            None
        },
        None => None,
    }
}

/// The slot encoder, as a function value.
pub open spec fn slot_enc() -> spec_fn((Seq<char>, ResponseModel)) -> Seq<char> {
    |e: (Seq<char>, ResponseModel)| enc_slot(e)
}

/// The slot parser, as a function value.
pub open spec fn slot_parse() -> spec_fn(Seq<char>) -> Option<
    ((Seq<char>, ResponseModel), Seq<char>),
> {
    |s: Seq<char>| parse_slot(s)
}

/// Parsing an encoded faithful slot yields it back.
proof fn lemma_parse_slot_roundtrip(e: (Seq<char>, ResponseModel), rest: Seq<char>)
    requires
        response_faithful(e.1),
    ensures
        parse_slot(enc_slot(e) + rest) == Some((e, rest)),
{
    let cont = seq![':'] + enc_response(e.1) + rest;
    assert(enc_slot(e) + rest =~= enc_string(e.0) + cont);
    lemma_parse_string_roundtrip(e.0, cont);
    assert(cont[0] == ':');
    assert(cont.skip(1) =~= enc_response(e.1) + rest);
    lemma_parse_response_roundtrip(e.1, rest);
}

/// The four counters of an endpoint record, encoded with their keys.
pub open spec fn enc_rpc_nums(m: RpcModel) -> Seq<char> {
    ",\"avg_response_time\":"@ + decimal_digits(m.avg_response_time as nat)
        + ",\"connections\":"@ + decimal_digits(m.connections as nat) + ",\"weight\":"@
        + decimal_digits(m.weight as nat) + ",\"response_counter\":"@ + decimal_digits(
        m.response_counter as nat,
    )
}

/// Parses the four counters of an endpoint record.
pub open spec fn parse_rpc_nums(s: Seq<char>) -> Option<((u128, u64, u64, u64), Seq<char>)> {
    match expect(s, ",\"avg_response_time\":"@) {
        Some(r1) => match parse_u128n(r1) {
            Some((avg, r2)) => match expect(r2, ",\"connections\":"@) {
                Some(r3) => match parse_u64n(r3) {
                    Some((conns, r4)) => match expect(r4, ",\"weight\":"@) {
                        Some(r5) => match parse_u64n(r5) {
                            Some((weight, r6)) => match expect(r6, ",\"response_counter\":"@) {
                                Some(r7) => match parse_u64n(r7) {
                                    Some((rc, r8)) => Some(((avg, conns, weight, rc), r8)),
                                    None => None,
                                },
                                None => None,
                            },
                            None => None,
                        },
                        None => None,
                    },
                    None => None,
                },
                None => None,
            },
            None => None,
        },
        None => None,
    }
}

/// Parsing the encoded counters, before a continuation that does not
/// begin with a digit, yields them back.
proof fn lemma_parse_rpc_nums_roundtrip(m: RpcModel, rest: Seq<char>)
    requires
        rest.len() >= 1,
        !is_dec_digit(rest[0]),
    ensures
        parse_rpc_nums(enc_rpc_nums(m) + rest) == Some(
            ((m.avg_response_time, m.connections, m.weight, m.response_counter), rest),
        ),
{
    let t7 = decimal_digits(m.response_counter as nat) + rest;
    let t6 = ",\"response_counter\":"@ + t7;
    let t5 = decimal_digits(m.weight as nat) + t6;
    let t4 = ",\"weight\":"@ + t5;
    let t3 = decimal_digits(m.connections as nat) + t4;
    let t2 = ",\"connections\":"@ + t3;
    let t1 = decimal_digits(m.avg_response_time as nat) + t2;
    assert(enc_rpc_nums(m) + rest =~= ",\"avg_response_time\":"@ + t1);
    lemma_expect_roundtrip(",\"avg_response_time\":"@, t1);
    reveal_strlit(",\"connections\":");
    reveal_strlit(",\"weight\":");
    reveal_strlit(",\"response_counter\":");
    assert(t2[0] == ',' && t4[0] == ',' && t6[0] == ',');
    assert(!is_dec_digit(','));
    lemma_parse_number_roundtrip(m.avg_response_time as nat, t2);
    lemma_expect_roundtrip(",\"connections\":"@, t3);
    lemma_parse_number_roundtrip(m.connections as nat, t4);
    lemma_expect_roundtrip(",\"weight\":"@, t5);
    lemma_parse_number_roundtrip(m.weight as nat, t6);
    lemma_expect_roundtrip(",\"response_counter\":"@, t7);
    lemma_parse_number_roundtrip(m.response_counter as nat, rest);
}

/// An encoded endpoint record.
pub open spec fn enc_rpc(m: RpcModel) -> Seq<char> {
    "{\"url\":"@ + enc_string(m.url) + enc_rpc_nums(m) + ",\"responses\":"@ + enc_array(
        m.responses,
        response_enc(),
    ) + seq!['}']
}

/// Parses an endpoint record from the front.
pub open spec fn parse_rpc(s: Seq<char>) -> Option<(RpcModel, Seq<char>)> {
    match expect(s, "{\"url\":"@) {
        Some(r1) => match parse_string(r1) {
            Some((url, r2)) => match parse_rpc_nums(r2) {
                Some(((avg_response_time, connections, weight, response_counter), r3)) => match expect(
                    r3,
                    ",\"responses\":"@,
                ) {
                    Some(r4) => match parse_array(r4, response_parse()) {
                        Some((responses, r5)) => if r5.len() >= 1 && r5[0] == '}' {
                            Some(
                                (
                                    RpcModel {
                                        url,
                                        avg_response_time,
                                        connections,
                                        weight,
                                        response_counter,
                                        responses,
                                    },
                                    r5.skip(1),
                                ),
                            )
                        } else {
                            None
                        },
                        None => None,
                    },
                    None => None,
                },
                None => None,
            },
            None => None,
        },
        None => None,
    }
}

/// Whether an endpoint record survives the untagged JSON shape.
pub open spec fn rpc_faithful(m: RpcModel) -> bool {
    forall|i: int| 0 <= i < m.responses.len() ==> response_faithful(#[trigger] m.responses[i])
}

/// Parsing an encoded faithful endpoint record yields it back.
#[verifier::rlimit(100)]
pub proof fn lemma_parse_rpc_roundtrip(m: RpcModel, rest: Seq<char>)
    requires
        rpc_faithful(m),
    ensures
        parse_rpc(enc_rpc(m) + rest) == Some((m, rest)),
{
    let t4 = seq!['}'] + rest;
    let t3 = enc_array(m.responses, response_enc()) + t4;
    let t2 = ",\"responses\":"@ + t3;
    let t1 = enc_rpc_nums(m) + t2;
    let t0 = enc_string(m.url) + t1;
    assert(enc_rpc(m) + rest =~= "{\"url\":"@ + t0);
    lemma_expect_roundtrip("{\"url\":"@, t0);
    lemma_parse_string_roundtrip(m.url, t1);
    reveal_strlit(",\"responses\":");
    assert(t2[0] == ',');
    assert(!is_dec_digit(','));
    lemma_parse_rpc_nums_roundtrip(m, t2);
    lemma_expect_roundtrip(",\"responses\":"@, t3);
    lemma_parse_response_array(m.responses, t4);
    assert(t4.skip(1) =~= rest);
}

/// The endpoint encoder, as a function value.
pub open spec fn rpc_enc() -> spec_fn(RpcModel) -> Seq<char> {
    |m: RpcModel| enc_rpc(m)
}

/// The endpoint parser, as a function value.
pub open spec fn rpc_parse() -> spec_fn(Seq<char>) -> Option<(RpcModel, Seq<char>)> {
    |s: Seq<char>| parse_rpc(s)
}

/// Parsing an encoded array of faithful endpoint records yields them
/// back.
proof fn lemma_parse_rpc_array(items: Seq<RpcModel>, rest: Seq<char>)
    requires
        forall|i: int| 0 <= i < items.len() ==> rpc_faithful(#[trigger] items[i]),
    ensures
        parse_array(enc_array(items, rpc_enc()) + rest, rpc_parse()) == Some((items, rest)),
{
    assert forall|k: int| #![trigger rpc_enc()(items[k])]
        0 <= k < items.len() implies rpc_enc()(items[k]).len() >= 1 && rpc_enc()(items[k])[0]
        != ']' by {
        reveal_strlit("{\"url\":");
        assert(enc_rpc(items[k])[0] == '{');
    }
    assert forall|k: int, r: Seq<char>|
        0 <= k < items.len() && r.len() >= 1 && (r[0] == ',' || r[0]
            == ']') implies #[trigger] rpc_parse()(rpc_enc()(items[k]) + r) == Some(
        (items[k], r),
    ) by {
        lemma_parse_rpc_roundtrip(items[k], r);
    }
    lemma_parse_seplist_roundtrip(items, rpc_enc(), rpc_parse(), '[', ']', rest);
    assert(enc_array(items, rpc_enc()) + rest =~= seq!['['] + sep_list(items, rpc_enc())
        + seq![']'] + rest);
}

/// Parsing an encoded object of faithful cache slots yields them back.
proof fn lemma_parse_slot_object(items: Seq<(Seq<char>, ResponseModel)>, rest: Seq<char>)
    requires
        forall|i: int| 0 <= i < items.len() ==> response_faithful((#[trigger] items[i]).1),
    ensures
        parse_object(enc_object(items, slot_enc()) + rest, slot_parse()) == Some((items, rest)),
{
    assert forall|k: int| #![trigger slot_enc()(items[k])]
        0 <= k < items.len() implies slot_enc()(items[k]).len() >= 1 && slot_enc()(items[k])[0]
        != '}' by {
        assert(enc_slot(items[k])[0] == enc_string(items[k].0)[0]);
        assert(enc_string(items[k].0)[0] == '"');
    }
    assert forall|k: int, r: Seq<char>|
        0 <= k < items.len() && r.len() >= 1 && (r[0] == ',' || r[0]
            == '}') implies #[trigger] slot_parse()(slot_enc()(items[k]) + r) == Some(
        (items[k], r),
    ) by {
        lemma_parse_slot_roundtrip(items[k], r);
    }
    lemma_parse_seplist_roundtrip(items, slot_enc(), slot_parse(), '{', '}', rest);
    assert(enc_object(items, slot_enc()) + rest =~= seq!['{'] + sep_list(items, slot_enc())
        + seq!['}'] + rest);
}

/// The pool's configuration segment, encoded with its keys: the three
/// ceilings and the cache options.
pub open spec fn enc_client_cfg(c: ClientModel) -> Seq<char> {
    ",\"max_connections\":"@ + decimal_digits(c.max_connections as nat) + ",\"max_responses\":"@
        + decimal_digits(c.max_responses as nat) + ",\"max_retries\":"@ + decimal_digits(
        c.max_retries as nat,
    ) + ",\"cache\":{\"cache_clear\":"@ + decimal_digits(c.cache.cache_clear as nat)
        + ",\"exclude_methods\":"@ + enc_array(c.cache.exclude_methods, string_enc())
        + "},\"response_results\":"@
}

/// Parses the pool's configuration segment.
pub open spec fn parse_client_cfg(s: Seq<char>) -> Option<
    ((u64, u64, u64, CacheOptionsModel), Seq<char>),
> {
    match expect(s, ",\"max_connections\":"@) {
        Some(r1) => match parse_u64n(r1) {
            Some((max_connections, r2)) => match expect(r2, ",\"max_responses\":"@) {
                Some(r3) => match parse_u64n(r3) {
                    Some((max_responses, r4)) => match expect(r4, ",\"max_retries\":"@) {
                        Some(r5) => match parse_u64n(r5) {
                            Some((max_retries, r6)) => match expect(
                                r6,
                                ",\"cache\":{\"cache_clear\":"@,
                            ) {
                                Some(r7) => match parse_u128n(r7) {
                                    Some((cache_clear, r8)) => match expect(
                                        r8,
                                        ",\"exclude_methods\":"@,
                                    ) {
                                        Some(r9) => match parse_array(r9, string_parse()) {
                                            Some((exclude_methods, r10)) => match expect(
                                                r10,
                                                "},\"response_results\":"@,
                                            ) {
                                                Some(r11) => Some(
                                                    (
                                                        (
                                                            max_connections,
                                                            max_responses,
                                                            max_retries,
                                                            CacheOptionsModel {
                                                                cache_clear,
                                                                exclude_methods,
                                                            },
                                                        ),
                                                        r11,
                                                    ),
                                                ),
                                                None => None,
                                            },
                                            None => None,
                                        },
                                        None => None,
                                    },
                                    None => None,
                                },
                                None => None,
                            },
                            None => None,
                        },
                        None => None,
                    },
                    None => None,
                },
                None => None,
            },
            None => None,
        },
        None => None,
    }
}

/// Parsing the encoded configuration segment yields it back.
#[verifier::rlimit(100)]
proof fn lemma_parse_client_cfg_roundtrip(c: ClientModel, rest: Seq<char>)
    ensures
        parse_client_cfg(enc_client_cfg(c) + rest) == Some(
            ((c.max_connections, c.max_responses, c.max_retries, c.cache), rest),
        ),
{
    let t9 = "},\"response_results\":"@ + rest;
    let t8 = enc_array(c.cache.exclude_methods, string_enc()) + t9;
    let t7 = ",\"exclude_methods\":"@ + t8;
    let t6 = decimal_digits(c.cache.cache_clear as nat) + t7;
    let t5 = ",\"cache\":{\"cache_clear\":"@ + t6;
    let t4 = decimal_digits(c.max_retries as nat) + t5;
    let t3 = ",\"max_retries\":"@ + t4;
    let t2 = decimal_digits(c.max_responses as nat) + t3;
    let t1 = ",\"max_responses\":"@ + t2;
    let t0 = decimal_digits(c.max_connections as nat) + t1;
    assert(enc_client_cfg(c) + rest =~= ",\"max_connections\":"@ + t0);
    lemma_expect_roundtrip(",\"max_connections\":"@, t0);
    reveal_strlit(",\"max_responses\":");
    reveal_strlit(",\"max_retries\":");
    reveal_strlit(",\"cache\":{\"cache_clear\":");
    reveal_strlit(",\"exclude_methods\":");
    assert(t1[0] == ',' && t3[0] == ',' && t5[0] == ',' && t7[0] == ',');
    assert(!is_dec_digit(','));
    lemma_parse_number_roundtrip(c.max_connections as nat, t1);
    lemma_expect_roundtrip(",\"max_responses\":"@, t2);
    lemma_parse_number_roundtrip(c.max_responses as nat, t3);
    lemma_expect_roundtrip(",\"max_retries\":"@, t4);
    lemma_parse_number_roundtrip(c.max_retries as nat, t5);
    lemma_expect_roundtrip(",\"cache\":{\"cache_clear\":"@, t6);
    lemma_parse_number_roundtrip(c.cache.cache_clear as nat, t7);
    lemma_expect_roundtrip(",\"exclude_methods\":"@, t8);
    lemma_parse_string_array(c.cache.exclude_methods, t9);
    lemma_expect_roundtrip("},\"response_results\":"@, rest);
    assert(c.cache =~= (CacheOptionsModel {
        cache_clear: c.cache.cache_clear,
        exclude_methods: c.cache.exclude_methods,
    }));
}

/// An encoded pool: one JSON object, fixed key order.
pub open spec fn enc_client(c: ClientModel) -> Seq<char> {
    "{\"chain_type\":"@ + enc_chain(c.chain_type) + ",\"chain_id\":"@ + enc_string(c.chain_id)
        + ",\"rpc_urls\":"@ + enc_array(c.rpc_urls, rpc_enc()) + enc_client_cfg(c) + enc_object(
        c.response_results,
        slot_enc(),
    ) + seq!['}']
}

/// Parses a whole pool from the front.
pub open spec fn parse_client(s: Seq<char>) -> Option<(ClientModel, Seq<char>)> {
    match expect(s, "{\"chain_type\":"@) {
        Some(r1) => match parse_chain(r1) {
            Some((chain_type, r2)) => match expect(r2, ",\"chain_id\":"@) {
                Some(r3) => match parse_string(r3) {
                    Some((chain_id, r4)) => match expect(r4, ",\"rpc_urls\":"@) {
                        Some(r5) => match parse_array(r5, rpc_parse()) {
                            Some((rpc_urls, r6)) => match parse_client_cfg(r6) {
                                Some(
                                    ((max_connections, max_responses, max_retries, cache), r7),
                                ) => match parse_object(r7, slot_parse()) {
                                    Some((response_results, r8)) => if r8.len() >= 1 && r8[0]
                                        == '}' {
                                        Some(
                                            (
                                                ClientModel {
                                                    chain_type,
                                                    chain_id,
                                                    rpc_urls,
                                                    max_connections,
                                                    max_responses,
                                                    max_retries,
                                                    cache,
                                                    response_results,
                                                },
                                                r8.skip(1),
                                            ),
                                        )
                                    } else {
                                        None
                                    },
                                    None => None,
                                },
                                None => None,
                            },
                            None => None,
                        },
                        None => None,
                    },
                    None => None,
                },
                None => None,
            },
            None => None,
        },
        None => None,
    }
}

/// Whether a pool survives the untagged JSON shape: every value in every
/// history and cache slot does. Only an empty number array among request
/// parameters or results falls outside it.
pub open spec fn snapshot_faithful(c: ClientModel) -> bool {
    &&& forall|i: int| 0 <= i < c.rpc_urls.len() ==> rpc_faithful(#[trigger] c.rpc_urls[i])
    &&& forall|i: int|
        0 <= i < c.response_results.len() ==> response_faithful(
            (#[trigger] c.response_results[i]).1,
        )
}

/// A whole snapshot: one encoded pool and nothing after it.
pub open spec fn parse_snapshot(s: Seq<char>) -> Option<ClientModel> {
    match parse_client(s) {
        Some((c, rest)) => if rest.len() == 0 {
            Some(c)
        } else {
            None
        },
        None => None,
    }
}

/// Round trip: decoding an encoded pool yields that pool, exactly.
#[verifier::rlimit(100)]
pub proof fn lemma_snapshot_roundtrip(c: ClientModel)
    requires
        snapshot_faithful(c),
    ensures
        parse_snapshot(enc_client(c)) == Some(c),
{
    let empty = Seq::<char>::empty();
    let t6 = seq!['}'] + empty;
    let t5 = enc_object(c.response_results, slot_enc()) + t6;
    let t4 = enc_client_cfg(c) + t5;
    let t3 = enc_array(c.rpc_urls, rpc_enc()) + t4;
    let t2 = ",\"rpc_urls\":"@ + t3;
    let t1 = enc_string(c.chain_id) + t2;
    let t0 = ",\"chain_id\":"@ + t1;
    let th = enc_chain(c.chain_type) + t0;
    assert(enc_client(c) =~= "{\"chain_type\":"@ + th);
    lemma_expect_roundtrip("{\"chain_type\":"@, th);
    lemma_parse_chain_roundtrip(c.chain_type, t0);
    lemma_expect_roundtrip(",\"chain_id\":"@, t1);
    lemma_parse_string_roundtrip(c.chain_id, t2);
    lemma_expect_roundtrip(",\"rpc_urls\":"@, t3);
    lemma_parse_rpc_array(c.rpc_urls, t4);
    lemma_parse_client_cfg_roundtrip(c, t5);
    lemma_parse_slot_object(c.response_results, t6);
    assert(t6.skip(1) =~= empty);
    let parsed = parse_client(enc_client(c));
    assert(parsed matches Some(p) && p.0 =~= c && p.1.len() == 0);
}

// ---------------------------------------------------------------------
// Encoding a pool to text
// ---------------------------------------------------------------------
/// Escaping one more character extends the escaped body by its escape.
proof fn lemma_json_escape_take_step(t: Seq<char>, i: int)
    requires
        0 <= i < t.len(),
    ensures
        json_escape(t.take(i + 1)) == json_escape(t.take(i)) + esc_char(t[i]),
    decreases i,
{
    if i == 0 {
        assert(t.take(1) =~= seq![t[0]]);
        assert(seq![t[0]].drop_first() =~= Seq::<char>::empty());
        assert(json_escape(seq![t[0]].drop_first()) =~= Seq::<char>::empty());
        assert(json_escape(t.take(1)) =~= esc_char(t[0]));
        assert(t.take(0) =~= Seq::<char>::empty());
        assert(json_escape(t.take(0)) + esc_char(t[0]) =~= esc_char(t[0]));
    } else {
        lemma_json_escape_take_step(t.drop_first(), i - 1);
        assert(t.take(i + 1).first() == t.first());
        assert(t.take(i).first() == t.first());
        assert(t.take(i + 1).drop_first() =~= t.drop_first().take(i));
        assert(t.take(i).drop_first() =~= t.drop_first().take(i - 1));
        assert(t.drop_first()[i - 1] == t[i]);
        assert(json_escape(t.take(i)) + esc_char(t[i]) =~= esc_char(t.first()) + (json_escape(
            t.drop_first().take(i - 1),
        ) + esc_char(t[i])));
    }
}

/// Separating one more item extends the separated tail by a comma and its
/// encoding.
proof fn lemma_sep_rest_take_step<V>(t: Seq<V>, f: spec_fn(V) -> Seq<char>, j: int)
    requires
        0 <= j < t.len(),
    ensures
        sep_rest(t.take(j + 1), f) == sep_rest(t.take(j), f) + seq![','] + f(t[j]),
    decreases j,
{
    if j == 0 {
        assert(t.take(1) =~= seq![t[0]]);
        assert(seq![t[0]].drop_first() =~= Seq::<V>::empty());
        assert(sep_rest(seq![t[0]].drop_first(), f) =~= Seq::<char>::empty());
        assert(sep_rest(t.take(1), f) =~= seq![','] + f(t[0]));
        assert(t.take(0) =~= Seq::<V>::empty());
        assert(sep_rest(t.take(0), f) + seq![','] + f(t[0]) =~= seq![','] + f(t[0]));
    } else {
        lemma_sep_rest_take_step(t.drop_first(), f, j - 1);
        assert(t.take(j + 1).first() == t.first());
        assert(t.take(j).first() == t.first());
        assert(t.take(j + 1).drop_first() =~= t.drop_first().take(j));
        assert(t.take(j).drop_first() =~= t.drop_first().take(j - 1));
        assert(t.drop_first()[j - 1] == t[j]);
        assert(sep_rest(t.take(j), f) + seq![','] + f(t[j]) =~= seq![','] + f(t.first()) + (
        sep_rest(t.drop_first().take(j - 1), f) + seq![','] + f(t[j])));
    }
}

/// Listing one more item extends the separated list.
proof fn lemma_sep_list_take_step<V>(items: Seq<V>, f: spec_fn(V) -> Seq<char>, i: int)
    requires
        0 <= i < items.len(),
    ensures
        i == 0 ==> sep_list(items.take(1), f) == f(items[0]),
        i >= 1 ==> sep_list(items.take(i + 1), f) == sep_list(items.take(i), f) + seq![','] + f(
            items[i],
        ),
    decreases i,
{
    if i == 0 {
        assert(items.take(1).first() == items[0]);
        assert(items.take(1).drop_first() =~= Seq::<V>::empty());
        assert(sep_rest(items.take(1).drop_first(), f) =~= Seq::<char>::empty());
        assert(sep_list(items.take(1), f) =~= f(items[0]));
    } else {
        assert(items.take(i + 1).first() == items.first());
        assert(items.take(i).first() == items.first());
        assert(items.take(i + 1).drop_first() =~= items.drop_first().take(i));
        assert(items.take(i).drop_first() =~= items.drop_first().take(i - 1));
        lemma_sep_rest_take_step(items.drop_first(), f, i - 1);
        assert(items.drop_first()[i - 1] == items[i]);
        assert(sep_list(items.take(i), f) + seq![','] + f(items[i]) =~= f(items.first()) + (
        sep_rest(items.drop_first().take(i - 1), f) + seq![','] + f(items[i])));
    }
}

/// Appends a number in canonical decimal.
fn enc_number_exec(out: &mut String, n: u128)
    ensures
        final(out)@ == old(out)@ + decimal_digits(n as nat),
    decreases n,
{
    if n < 10 {
        push_char(out, digit_char(n as u8));
        proof {
            assert(out@ =~= old(out)@ + decimal_digits(n as nat));
        }
    } else {
        enc_number_exec(out, n / 10);
        push_char(out, digit_char((n % 10) as u8));
        proof {
            assert(out@ =~= old(out)@ + decimal_digits(n as nat));
        }
    }
}

/// Appends an encoded JSON string.
fn enc_string_exec(out: &mut String, t: &String)
    ensures
        final(out)@ == old(out)@ + enc_string(t@),
{
    push_char(out, '"');
    let n = t.as_str().unicode_len();
    let mut i: usize = 0;
    proof {
        assert(t@.take(0) =~= Seq::<char>::empty());
        assert(out@ =~= old(out)@ + seq!['"'] + json_escape(t@.take(0)));
    }
    while i < n
        invariant
            i <= n,
            n == t@.len(),
            out@ == old(out)@ + seq!['"'] + json_escape(t@.take(i as int)),
        decreases n - i,
    {
        let c = t.as_str().get_char(i);
        if c == '"' || c == '\\' {
            push_char(out, '\\');
            push_char(out, c);
        } else {
            push_char(out, c);
        }
        proof {
            lemma_json_escape_take_step(t@, i as int);
            assert(out@ =~= old(out)@ + seq!['"'] + json_escape(t@.take(i as int + 1)));
        }
        i = i + 1;
    }
    push_char(out, '"');
    proof {
        assert(t@.take(n as int) =~= t@);
        assert(out@ =~= old(out)@ + enc_string(t@));
    }
}

/// Appends an encoded truth value.
fn enc_bool_exec(out: &mut String, b: bool)
    ensures
        final(out)@ == old(out)@ + enc_bool(b),
{
    if b {
        push_char(out, 't');
        push_char(out, 'r');
        push_char(out, 'u');
        push_char(out, 'e');
    } else {
        push_char(out, 'f');
        push_char(out, 'a');
        push_char(out, 'l');
        push_char(out, 's');
        push_char(out, 'e');
    }
    proof {
        assert(out@ =~= old(out)@ + enc_bool(b));
    }
}

/// Appends an encoded chain kind.
fn enc_chain_exec(out: &mut String, b: &Blockchain)
    ensures
        final(out)@ == old(out)@ + enc_chain(*b),
{
    push_char(out, '"');
    match b {
        Blockchain::Ethereum => {
            push_char(out, 'E');
            push_char(out, 't');
            push_char(out, 'h');
            push_char(out, 'e');
            push_char(out, 'r');
            push_char(out, 'e');
            push_char(out, 'u');
            push_char(out, 'm');
        },
        Blockchain::Evm => {
            push_char(out, 'E');
            push_char(out, 'v');
            push_char(out, 'm');
        },
        Blockchain::Solana => {
            push_char(out, 'S');
            push_char(out, 'o');
            push_char(out, 'l');
            push_char(out, 'a');
            push_char(out, 'n');
            push_char(out, 'a');
        },
    }
    push_char(out, '"');
    proof {
        assert(out@ =~= old(out)@ + enc_chain(*b));
    }
}

/// Appends an encoded array of strings.
fn enc_strings_exec(out: &mut String, v: &Vec<String>)
    ensures
        final(out)@ == old(out)@ + enc_array(v.deep_view(), string_enc()),
{
    let ghost items = v.deep_view();
    push_char(out, '[');
    let mut i: usize = 0;
    while i < v.len()
        invariant
            i <= v@.len(),
            items == v.deep_view(),
            items.len() == v@.len(),
            i == 0 ==> out@ == old(out)@ + seq!['['],
            i >= 1 ==> out@ == old(out)@ + seq!['['] + sep_list(items.take(i as int), string_enc()),
        decreases v@.len() - i,
    {
        if i > 0 {
            push_char(out, ',');
        }
        enc_string_exec(out, &v[i]);
        proof {
            lemma_sep_list_take_step(items, string_enc(), i as int);
            if i == 0 {
                assert(out@ =~= old(out)@ + seq!['['] + sep_list(items.take(1), string_enc()));
            } else {
                assert(out@ =~= old(out)@ + seq!['['] + sep_list(
                    items.take(i as int + 1),
                    string_enc(),
                ));
            }
        }
        i = i + 1;
    }
    push_char(out, ']');
    proof {
        if items.len() == 0 {
            assert(sep_list(items, string_enc()).len() == 0);
        } else {
            assert(items.take(items.len() as int) =~= items);
        }
        assert(out@ =~= old(out)@ + enc_array(items, string_enc()));
    }
}

/// Appends an encoded array of numbers.
fn enc_u64s_exec(out: &mut String, v: &Vec<u64>)
    ensures
        final(out)@ == old(out)@ + enc_array(v@, num64_enc()),
{
    let ghost items = v@;
    push_char(out, '[');
    let mut i: usize = 0;
    while i < v.len()
        invariant
            i <= v@.len(),
            items == v@,
            i == 0 ==> out@ == old(out)@ + seq!['['],
            i >= 1 ==> out@ == old(out)@ + seq!['['] + sep_list(items.take(i as int), num64_enc()),
        decreases v@.len() - i,
    {
        if i > 0 {
            push_char(out, ',');
        }
        enc_number_exec(out, v[i] as u128);
        proof {
            lemma_sep_list_take_step(items, num64_enc(), i as int);
            if i == 0 {
                assert(out@ =~= old(out)@ + seq!['['] + sep_list(items.take(1), num64_enc()));
            } else {
                assert(out@ =~= old(out)@ + seq!['['] + sep_list(
                    items.take(i as int + 1),
                    num64_enc(),
                ));
            }
        }
        i = i + 1;
    }
    push_char(out, ']');
    proof {
        if items.len() == 0 {
            assert(sep_list(items, num64_enc()).len() == 0);
        } else {
            assert(items.take(items.len() as int) =~= items);
        }
        assert(out@ =~= old(out)@ + enc_array(items, num64_enc()));
    }
}

/// Appends an encoded object of raw-text entries.
fn enc_entries_exec(out: &mut String, v: &Vec<(String, String)>)
    ensures
        final(out)@ == old(out)@ + enc_object(v.deep_view(), entry_enc()),
{
    let ghost items = v.deep_view();
    push_char(out, '{');
    let mut i: usize = 0;
    while i < v.len()
        invariant
            i <= v@.len(),
            items == v.deep_view(),
            items.len() == v@.len(),
            i == 0 ==> out@ == old(out)@ + seq!['{'],
            i >= 1 ==> out@ == old(out)@ + seq!['{'] + sep_list(items.take(i as int), entry_enc()),
        decreases v@.len() - i,
    {
        if i > 0 {
            push_char(out, ',');
        }
        let e = &v[i];
        enc_string_exec(out, &e.0);
        push_char(out, ':');
        enc_string_exec(out, &e.1);
        proof {
            lemma_sep_list_take_step(items, entry_enc(), i as int);
            if i == 0 {
                assert(out@ =~= old(out)@ + seq!['{'] + sep_list(items.take(1), entry_enc()));
            } else {
                assert(out@ =~= old(out)@ + seq!['{'] + sep_list(
                    items.take(i as int + 1),
                    entry_enc(),
                ));
            }
        }
        i = i + 1;
    }
    push_char(out, '}');
    proof {
        if items.len() == 0 {
            assert(sep_list(items, entry_enc()).len() == 0);
        } else {
            assert(items.take(items.len() as int) =~= items);
        }
        assert(out@ =~= old(out)@ + enc_object(items, entry_enc()));
    }
}

/// Appends an encoded parameter value.
fn enc_inner_data_exec(out: &mut String, d: &InnerData)
    ensures
        final(out)@ == old(out)@ + enc_inner(d.deep_view()),
{
    match d {
        InnerData::Text(t) => {
            enc_string_exec(out, t);
        },
        InnerData::TextArray(v) => {
            enc_strings_exec(out, v);
        },
        InnerData::NumberArray(v) => {
            enc_u64s_exec(out, v);
        },
        InnerData::Boolean(b) => {
            enc_bool_exec(out, *b);
        },
        InnerData::Object(es) => {
            enc_entries_exec(out, es);
        },
    }
}

/// Appends an encoded result value.
fn enc_response_inner_exec(out: &mut String, d: &ResponseInnerData)
    ensures
        final(out)@ == old(out)@ + enc_inner(d.deep_view()),
{
    match d {
        ResponseInnerData::Text(t) => {
            enc_string_exec(out, t);
        },
        ResponseInnerData::TextArray(v) => {
            enc_strings_exec(out, v);
        },
        ResponseInnerData::NumberArray(v) => {
            enc_u64s_exec(out, v);
        },
        ResponseInnerData::Boolean(b) => {
            enc_bool_exec(out, *b);
        },
        ResponseInnerData::Object(es) => {
            enc_entries_exec(out, es);
        },
    }
}

/// Appends an encoded parameter list.
fn enc_params_exec(out: &mut String, v: &Vec<InnerData>)
    ensures
        final(out)@ == old(out)@ + enc_array(v.deep_view(), inner_enc()),
{
    let ghost items = v.deep_view();
    push_char(out, '[');
    let mut i: usize = 0;
    while i < v.len()
        invariant
            i <= v@.len(),
            items == v.deep_view(),
            items.len() == v@.len(),
            i == 0 ==> out@ == old(out)@ + seq!['['],
            i >= 1 ==> out@ == old(out)@ + seq!['['] + sep_list(items.take(i as int), inner_enc()),
        decreases v@.len() - i,
    {
        if i > 0 {
            push_char(out, ',');
        }
        enc_inner_data_exec(out, &v[i]);
        proof {
            lemma_sep_list_take_step(items, inner_enc(), i as int);
            if i == 0 {
                assert(out@ =~= old(out)@ + seq!['['] + sep_list(items.take(1), inner_enc()));
            } else {
                assert(out@ =~= old(out)@ + seq!['['] + sep_list(
                    items.take(i as int + 1),
                    inner_enc(),
                ));
            }
        }
        i = i + 1;
    }
    push_char(out, ']');
    proof {
        if items.len() == 0 {
            assert(sep_list(items, inner_enc()).len() == 0);
        } else {
            assert(items.take(items.len() as int) =~= items);
        }
        assert(out@ =~= old(out)@ + enc_array(items, inner_enc()));
    }
}

/// Appends an encoded response record.
fn enc_response_exec(out: &mut String, m: &Response)
    ensures
        final(out)@ == old(out)@ + enc_response(m.deep_view()),
{
    out.append("{\"method\":");
    enc_string_exec(out, &m.method);
    out.append(",\"params\":");
    enc_params_exec(out, &m.params);
    out.append(",\"result\":");
    match &m.result {
        None => {
            push_char(out, 'n');
            push_char(out, 'u');
            push_char(out, 'l');
            push_char(out, 'l');
        },
        Some(d) => {
            enc_response_inner_exec(out, d);
        },
    }
    out.append(",\"time_taken\":");
    enc_number_exec(out, m.time_taken);
    out.append(",\"start_time\":");
    enc_number_exec(out, m.start_time);
    push_char(out, '}');
    proof {
        assert(out@ =~= old(out)@ + enc_response(m.deep_view()));
    }
}

/// Appends an encoded history.
fn enc_responses_exec(out: &mut String, v: &Vec<Response>)
    ensures
        final(out)@ == old(out)@ + enc_array(v.deep_view(), response_enc()),
{
    let ghost items = v.deep_view();
    push_char(out, '[');
    let mut i: usize = 0;
    while i < v.len()
        invariant
            i <= v@.len(),
            items == v.deep_view(),
            items.len() == v@.len(),
            i == 0 ==> out@ == old(out)@ + seq!['['],
            i >= 1 ==> out@ == old(out)@ + seq!['['] + sep_list(
                items.take(i as int),
                response_enc(),
            ),
        decreases v@.len() - i,
    {
        if i > 0 {
            push_char(out, ',');
        }
        enc_response_exec(out, &v[i]);
        proof {
            lemma_sep_list_take_step(items, response_enc(), i as int);
            if i == 0 {
                assert(out@ =~= old(out)@ + seq!['['] + sep_list(items.take(1), response_enc()));
            } else {
                assert(out@ =~= old(out)@ + seq!['['] + sep_list(
                    items.take(i as int + 1),
                    response_enc(),
                ));
            }
        }
        i = i + 1;
    }
    push_char(out, ']');
    proof {
        if items.len() == 0 {
            assert(sep_list(items, response_enc()).len() == 0);
        } else {
            assert(items.take(items.len() as int) =~= items);
        }
        assert(out@ =~= old(out)@ + enc_array(items, response_enc()));
    }
}

/// Appends an encoded endpoint record.
fn enc_rpc_exec(out: &mut String, m: &RPC)
    ensures
        final(out)@ == old(out)@ + enc_rpc(m.deep_view()),
{
    out.append("{\"url\":");
    enc_string_exec(out, &m.url);
    out.append(",\"avg_response_time\":");
    enc_number_exec(out, m.avg_response_time);
    out.append(",\"connections\":");
    enc_number_exec(out, m.connections as u128);
    out.append(",\"weight\":");
    enc_number_exec(out, m.weight as u128);
    out.append(",\"response_counter\":");
    enc_number_exec(out, m.response_counter as u128);
    out.append(",\"responses\":");
    enc_responses_exec(out, &m.responses);
    push_char(out, '}');
    proof {
        assert(out@ =~= old(out)@ + enc_rpc(m.deep_view()));
    }
}

/// Appends an encoded endpoint list.
fn enc_rpcs_exec(out: &mut String, v: &Vec<RPC>)
    ensures
        final(out)@ == old(out)@ + enc_array(v.deep_view(), rpc_enc()),
{
    let ghost items = v.deep_view();
    push_char(out, '[');
    let mut i: usize = 0;
    while i < v.len()
        invariant
            i <= v@.len(),
            items == v.deep_view(),
            items.len() == v@.len(),
            i == 0 ==> out@ == old(out)@ + seq!['['],
            i >= 1 ==> out@ == old(out)@ + seq!['['] + sep_list(items.take(i as int), rpc_enc()),
        decreases v@.len() - i,
    {
        if i > 0 {
            push_char(out, ',');
        }
        enc_rpc_exec(out, &v[i]);
        proof {
            lemma_sep_list_take_step(items, rpc_enc(), i as int);
            if i == 0 {
                assert(out@ =~= old(out)@ + seq!['['] + sep_list(items.take(1), rpc_enc()));
            } else {
                assert(out@ =~= old(out)@ + seq!['['] + sep_list(
                    items.take(i as int + 1),
                    rpc_enc(),
                ));
            }
        }
        i = i + 1;
    }
    push_char(out, ']');
    proof {
        if items.len() == 0 {
            assert(sep_list(items, rpc_enc()).len() == 0);
        } else {
            assert(items.take(items.len() as int) =~= items);
        }
        assert(out@ =~= old(out)@ + enc_array(items, rpc_enc()));
    }
}

/// Appends an encoded cache slot object.
#[verifier::rlimit(100)]
fn enc_slots_exec(out: &mut String, v: &Vec<(String, Response)>)
    ensures
        final(out)@ == old(out)@ + enc_object(v.deep_view(), slot_enc()),
{
    let ghost items = v.deep_view();
    push_char(out, '{');
    let mut i: usize = 0;
    while i < v.len()
        invariant
            i <= v@.len(),
            items == v.deep_view(),
            items.len() == v@.len(),
            i == 0 ==> out@ == old(out)@ + seq!['{'],
            i >= 1 ==> out@ == old(out)@ + seq!['{'] + sep_list(items.take(i as int), slot_enc()),
        decreases v@.len() - i,
    {
        if i > 0 {
            push_char(out, ',');
        }
        let e = &v[i];
        enc_string_exec(out, &e.0);
        push_char(out, ':');
        enc_response_exec(out, &e.1);
        proof {
            lemma_sep_list_take_step(items, slot_enc(), i as int);
            if i == 0 {
                assert(out@ =~= old(out)@ + seq!['{'] + sep_list(items.take(1), slot_enc()));
            } else {
                assert(out@ =~= old(out)@ + seq!['{'] + sep_list(
                    items.take(i as int + 1),
                    slot_enc(),
                ));
            }
        }
        i = i + 1;
    }
    push_char(out, '}');
    proof {
        if items.len() == 0 {
            assert(sep_list(items, slot_enc()).len() == 0);
        } else {
            assert(items.take(items.len() as int) =~= items);
        }
        assert(out@ =~= old(out)@ + enc_object(items, slot_enc()));
    }
}

impl ExecutionClient {
    /// Serializes this pool into its JSON snapshot form.
    #[verifier::rlimit(100)]
    pub fn to_snapshot(&self) -> (s: String)
        ensures
            s@ == enc_client(self.deep_view()),
    {
        let mut out = String::new();
        out.append("{\"chain_type\":");
        enc_chain_exec(&mut out, &self.chain_type);
        out.append(",\"chain_id\":");
        enc_string_exec(&mut out, &self.chain_id);
        out.append(",\"rpc_urls\":");
        enc_rpcs_exec(&mut out, &self.rpc_urls);
        out.append(",\"max_connections\":");
        enc_number_exec(&mut out, self.max_connections as u128);
        out.append(",\"max_responses\":");
        enc_number_exec(&mut out, self.max_responses as u128);
        out.append(",\"max_retries\":");
        enc_number_exec(&mut out, self.max_retries as u128);
        out.append(",\"cache\":{\"cache_clear\":");
        enc_number_exec(&mut out, self.cache.cache_clear);
        out.append(",\"exclude_methods\":");
        enc_strings_exec(&mut out, &self.cache.exclude_methods);
        out.append("},\"response_results\":");
        enc_slots_exec(&mut out, &self.response_results);
        push_char(&mut out, '}');
        proof {
            assert(out@ =~= enc_client(self.deep_view()));
        }
        out
    }
}

// ---------------------------------------------------------------------
// Decoding a pool from text
// ---------------------------------------------------------------------
/// A maximal digit scan never shrinks its accumulator.
proof fn lemma_parse_digits_lower_bound(s: Seq<char>, acc: nat)
    ensures
        parse_digits(s, acc).0 >= acc,
    decreases s.len(),
{
    if s.len() > 0 && is_dec_digit(s[0]) {
        lemma_parse_digits_lower_bound(s.skip(1), acc * 10 + spec_dec_val(s[0]) as nat);
    }
}

/// Reads a fixed literal at a position.
fn p_expect(s: &Vec<char>, pos: usize, lit: &str) -> (r: Option<usize>)
    requires
        pos <= s@.len(),
    ensures
        match expect(s@.skip(pos as int), lit@) {
            Some(rest) => r matches Some(np) && pos <= np <= s@.len() && s@.skip(np as int)
                == rest,
            None => r is None,
        },
{
    let n = s.len();
    let ll = lit.unicode_len();
    if n - pos < ll {
        return None;
    }
    let ghost win = s@.skip(pos as int);
    let mut i: usize = 0;
    while i < ll
        invariant
            i <= ll,
            pos + ll <= s@.len(),
            s@.len() <= usize::MAX,
            ll == lit@.len(),
            win == s@.skip(pos as int),
            forall|j: int| 0 <= j < i ==> win[j] == lit@[j],
        decreases ll - i,
    {
        let c = s[pos + i];
        proof {
            assert(win[i as int] == s@[pos + i]);
        }
        if c != lit.get_char(i) {
            proof {
                assert(win[i as int] != lit@[i as int]);
                assert(win.take(ll as int)[i as int] == win[i as int]);
            }
            return None;
        }
        i = i + 1;
    }
    proof {
        assert(win.take(ll as int) =~= lit@);
        assert(win.skip(ll as int) =~= s@.skip(pos as int + ll as int));
    }
    Some(pos + ll)
}

/// Reads a JSON number at a position; it must fit 128 bits.
fn p_number(s: &Vec<char>, pos: usize) -> (r: Option<(u128, usize)>)
    requires
        pos <= s@.len(),
    ensures
        match parse_u128n(s@.skip(pos as int)) {
            Some((v, rest)) => r matches Some(q) && q.0 == v && pos <= q.1 <= s@.len() && s@.skip(
                q.1 as int,
            ) == rest,
            None => r is None,
        },
{
    let n = s.len();
    if pos >= n {
        return None;
    }
    let ghost win = s@.skip(pos as int);
    let c0 = s[pos];
    proof {
        assert(win[0] == s@[pos as int]);
    }
    let u0 = c0 as u32;
    if !(48 <= u0 && u0 <= 57) {
        proof {
            assert(!is_dec_digit(win[0]));
        }
        return None;
    }
    let mut acc: u128 = 0;
    let mut cur: usize = pos;
    proof {
        assert(win.skip(0) =~= win);
    }
    while cur < n
        invariant
            pos <= cur <= n,
            n == s@.len(),
            win == s@.skip(pos as int),
            win.len() >= 1,
            is_dec_digit(win[0]),
            parse_digits(win, 0) == parse_digits(win.skip(cur - pos), acc as nat),
        decreases n - cur,
    {
        let ghost sfx = win.skip(cur - pos);
        proof {
            assert(sfx[0] == s@[cur as int]);
            assert(sfx.skip(1) =~= win.skip(cur - pos + 1));
        }
        let c = s[cur];
        let u = c as u32;
        if !(48 <= u && u <= 57) {
            proof {
                assert(!is_dec_digit(sfx[0]));
                assert(parse_digits(sfx, acc as nat) == (acc as nat, sfx));
                assert(sfx =~= s@.skip(cur as int));
            }
            return Some((acc, cur));
        }
        let d = (u - 48) as u8;
        proof {
            assert(is_dec_digit(c));
            assert(spec_dec_val(c) == d);
        }
        if acc > (u128::MAX - d as u128) / 10 {
            proof {
                assert((acc as nat) * 10 + d as nat > u128::MAX) by {
                    let m = (u128::MAX - d as u128) as int;
                    assert(10 * (m / 10) + m % 10 == m);
                    assert(m % 10 < 10);
                    assert(acc as int >= m / 10 + 1);
                }
                lemma_parse_digits_lower_bound(sfx.skip(1), (acc as nat) * 10 + d as nat);
                assert(parse_digits(sfx, acc as nat) == parse_digits(
                    sfx.skip(1),
                    (acc as nat) * 10 + d as nat,
                ));
            }
            return None;
        }
        acc = acc * 10 + d as u128;
        cur = cur + 1;
    }
    proof {
        assert(win.skip(cur - pos).len() == 0);
        assert(parse_digits(win.skip(cur - pos), acc as nat) == (acc as nat, win.skip(cur - pos)));
        assert(win.skip(cur - pos) =~= s@.skip(cur as int));
    }
    Some((acc, cur))
}

/// Reads a JSON number that must fit 64 bits.
fn p_u64(s: &Vec<char>, pos: usize) -> (r: Option<(u64, usize)>)
    requires
        pos <= s@.len(),
    ensures
        match parse_u64n(s@.skip(pos as int)) {
            Some((v, rest)) => r matches Some(q) && q.0 == v && pos <= q.1 <= s@.len() && s@.skip(
                q.1 as int,
            ) == rest,
            None => r is None,
        },
{
    match p_number(s, pos) {
        Some((v, np)) => {
            if v <= u64::MAX as u128 {
                Some((v as u64, np))
            } else {
                None
            }
        },
        None => None,
    }
}

/// Reads a JSON string at a position.
fn p_string(s: &Vec<char>, pos: usize) -> (r: Option<(String, usize)>)
    requires
        pos <= s@.len(),
    ensures
        match parse_string(s@.skip(pos as int)) {
            Some((t, rest)) => r matches Some(q) && q.0@ == t && pos <= q.1 <= s@.len() && s@.skip(
                q.1 as int,
            ) == rest,
            None => r is None,
        },
{
    let n = s.len();
    if pos >= n {
        return None;
    }
    proof {
        assert(s@.skip(pos as int)[0] == s@[pos as int]);
    }
    if s[pos] != '"' {
        return None;
    }
    let ghost body0 = s@.skip(pos as int + 1);
    proof {
        assert(s@.skip(pos as int).skip(1) =~= body0);
    }
    let mut out = String::new();
    let mut cur: usize = pos + 1;
    while cur < n
        invariant
            pos + 1 <= cur <= n,
            n == s@.len(),
            body0 == s@.skip(pos as int + 1),
            parse_string(s@.skip(pos as int)) == parse_string_body(body0, Seq::<char>::empty()),
            parse_string_body(body0, Seq::<char>::empty()) == parse_string_body(
                s@.skip(cur as int),
                out@,
            ),
        decreases n - cur,
    {
        let ghost sfx = s@.skip(cur as int);
        proof {
            assert(sfx[0] == s@[cur as int]);
            assert(sfx.skip(1) =~= s@.skip(cur as int + 1));
        }
        let c = s[cur];
        if c == '"' {
            return Some((out, cur + 1));
        }
        if c == '\\' {
            if cur + 1 < n {
                proof {
                    assert(sfx[1] == s@[cur as int + 1]);
                    assert(sfx.skip(2) =~= s@.skip(cur as int + 2));
                }
                let e = s[cur + 1];
                if e == '"' || e == '\\' {
                    push_char(&mut out, e);
                    cur = cur + 2;
                } else {
                    return None;
                }
            } else {
                return None;
            }
        } else {
            push_char(&mut out, c);
            cur = cur + 1;
        }
    }
    proof {
        assert(s@.skip(cur as int).len() == 0);
    }
    None
}

/// Reads a truth value at a position.
fn p_bool(s: &Vec<char>, pos: usize) -> (r: Option<(bool, usize)>)
    requires
        pos <= s@.len(),
    ensures
        match parse_bool(s@.skip(pos as int)) {
            Some((b, rest)) => r matches Some(q) && q.0 == b && pos <= q.1 <= s@.len() && s@.skip(
                q.1 as int,
            ) == rest,
            None => r is None,
        },
{
    let n = s.len();
    let ghost win = s@.skip(pos as int);
    proof {
        assert(forall|j: int| 0 <= j < win.len() ==> win[j] == s@[pos + j]);
    }
    if n - pos >= 4 && s[pos] == 't' && s[pos + 1] == 'r' && s[pos + 2] == 'u' && s[pos + 3]
        == 'e' {
        proof {
            assert(win.skip(4) =~= s@.skip(pos as int + 4));
        }
        Some((true, pos + 4))
    } else if n - pos >= 5 && s[pos] == 'f' && s[pos + 1] == 'a' && s[pos + 2] == 'l' && s[pos + 3]
        == 's' && s[pos + 4] == 'e' {
        proof {
            assert(win.skip(5) =~= s@.skip(pos as int + 5));
        }
        Some((false, pos + 5))
    } else {
        None
    }
}

/// Reads a chain kind at a position.
fn p_chain(s: &Vec<char>, pos: usize) -> (r: Option<(Blockchain, usize)>)
    requires
        pos <= s@.len(),
    ensures
        match parse_chain(s@.skip(pos as int)) {
            Some((b, rest)) => r matches Some(q) && q.0 == b && pos <= q.1 <= s@.len() && s@.skip(
                q.1 as int,
            ) == rest,
            None => r is None,
        },
{
    let n = s.len();
    let ghost win = s@.skip(pos as int);
    proof {
        assert(forall|j: int| 0 <= j < win.len() ==> win[j] == s@[pos + j]);
    }
    if n - pos >= 10 && s[pos] == '"' && s[pos + 1] == 'E' && s[pos + 2] == 't' && s[pos + 3]
        == 'h' && s[pos + 4] == 'e' && s[pos + 5] == 'r' && s[pos + 6] == 'e' && s[pos + 7] == 'u'
        && s[pos + 8] == 'm' && s[pos + 9] == '"' {
        proof {
            assert(win.skip(10) =~= s@.skip(pos as int + 10));
        }
        Some((Blockchain::Ethereum, pos + 10))
    } else if n - pos >= 5 && s[pos] == '"' && s[pos + 1] == 'E' && s[pos + 2] == 'v' && s[pos + 3]
        == 'm' && s[pos + 4] == '"' {
        proof {
            assert(win.skip(5) =~= s@.skip(pos as int + 5));
        }
        Some((Blockchain::Evm, pos + 5))
    } else if n - pos >= 8 && s[pos] == '"' && s[pos + 1] == 'S' && s[pos + 2] == 'o' && s[pos + 3]
        == 'l' && s[pos + 4] == 'a' && s[pos + 5] == 'n' && s[pos + 6] == 'a' && s[pos + 7] == '"' {
        proof {
            assert(win.skip(8) =~= s@.skip(pos as int + 8));
        }
        Some((Blockchain::Solana, pos + 8))
    } else {
        None
    }
}

// ---------------------------------------------------------------------
// Decoding lists and records
// ---------------------------------------------------------------------
/// Reads a string-valued object entry at a position.
fn p_entry(s: &Vec<char>, pos: usize) -> (r: Option<((String, String), usize)>)
    requires
        pos <= s@.len(),
    ensures
        match parse_entry(s@.skip(pos as int)) {
            Some((e, rest)) => r matches Some(q) && q.0.deep_view() == e && pos <= q.1 <= s@.len()
                && s@.skip(q.1 as int) == rest,
            None => r is None,
        },
{
    let (k, np1) = match p_string(s, pos) {
        Some(q) => q,
        None => {
            return None;
        },
    };
    let n = s.len();
    if np1 >= n {
        proof {
            assert(s@.skip(np1 as int).len() == 0);
        }
        return None;
    }
    proof {
        assert(s@.skip(np1 as int)[0] == s@[np1 as int]);
        assert(s@.skip(np1 as int).skip(1) =~= s@.skip(np1 as int + 1));
    }
    if s[np1] != ':' {
        return None;
    }
    let (v, np2) = match p_string(s, np1 + 1) {
        Some(q) => q,
        None => {
            return None;
        },
    };
    Some(((k, v), np2))
}

/// Reads a JSON array of strings at a position.
fn p_strings(s: &Vec<char>, pos: usize) -> (r: Option<(Vec<String>, usize)>)
    requires
        pos <= s@.len(),
    ensures
        match parse_array(s@.skip(pos as int), string_parse()) {
            Some((vs, rest)) => r matches Some(q) && q.0.deep_view() == vs && pos <= q.1 <= s@.len()
                && s@.skip(q.1 as int) == rest,
            None => r is None,
        },
{
    let n = s.len();
    if pos >= n {
        return None;
    }
    proof {
        assert(s@.skip(pos as int)[0] == s@[pos as int]);
    }
    if s[pos] != '[' {
        return None;
    }
    let ghost r0 = s@.skip(pos as int + 1);
    proof {
        assert(s@.skip(pos as int).skip(1) =~= r0);
    }
    if pos + 1 < n {
        proof {
            assert(r0[0] == s@[pos as int + 1]);
        }
        if s[pos + 1] == ']' {
            proof {
                assert(r0.skip(1) =~= s@.skip(pos as int + 2));
            }
            let done: Vec<String> = Vec::new();
            proof {
                assert(done.deep_view() =~= Seq::<Seq<char>>::empty());
            }
            return Some((done, pos + 2));
        }
    }
    let (first, cur0) = match p_string(s, pos + 1) {
        Some(q) => q,
        None => {
            return None;
        },
    };
    let ghost fm = string_parse()(r0)->Some_0.0;
    let mut out: Vec<String> = Vec::new();
    out.push(first);
    let mut cur: usize = cur0;
    let mut fuel: usize = n - cur;
    proof {
        assert(out.deep_view() =~= seq![fm]);
        assert(s@.skip(cur as int).len() == n - cur);
    }
    loop
        invariant
            pos <= cur <= n,
            n == s@.len(),
            out.deep_view().len() >= 1,
            parse_array(s@.skip(pos as int), string_parse()) == (match parse_sep_rest(
                s@.skip(cur as int),
                string_parse(),
                ']',
                fuel as nat,
            ) {
                Some((vs, rest)) => Some((out.deep_view() + vs, rest)),
                None => None::<(Seq<Seq<char>>, Seq<char>)>,
            }),
        decreases fuel,
    {
        if cur >= n {
            proof {
                assert(s@.skip(cur as int).len() == 0);
            }
            return None;
        }
        let ghost sfx = s@.skip(cur as int);
        proof {
            assert(sfx[0] == s@[cur as int]);
            assert(sfx.skip(1) =~= s@.skip(cur as int + 1));
        }
        let c = s[cur];
        if c == ']' {
            return Some((out, cur + 1));
        }
        if c != ',' || fuel == 0 {
            return None;
        }
        match p_string(s, cur + 1) {
            None => {
                return None;
            },
            Some((item, np)) => {
                let ghost pre = out.deep_view();
                let ghost im = string_parse()(sfx.skip(1))->Some_0.0;
                out.push(item);
                proof {
                    assert(out.deep_view() =~= pre.push(im));
                    assert forall|vs: Seq<Seq<char>>| pre + (seq![im] + vs) == (pre.push(im)
                        + vs) by {
                        assert(pre + (seq![im] + vs) =~= pre.push(im) + vs);
                    }
                }
                cur = np;
                fuel = fuel - 1;
            },
        }
    }
}

/// Reads a JSON array of numbers at a position.
fn p_u64s(s: &Vec<char>, pos: usize) -> (r: Option<(Vec<u64>, usize)>)
    requires
        pos <= s@.len(),
    ensures
        match parse_array(s@.skip(pos as int), num64_parse()) {
            Some((vs, rest)) => r matches Some(q) && q.0@ == vs && pos <= q.1 <= s@.len()
                && s@.skip(q.1 as int) == rest,
            None => r is None,
        },
{
    let n = s.len();
    if pos >= n {
        return None;
    }
    proof {
        assert(s@.skip(pos as int)[0] == s@[pos as int]);
    }
    if s[pos] != '[' {
        return None;
    }
    let ghost r0 = s@.skip(pos as int + 1);
    proof {
        assert(s@.skip(pos as int).skip(1) =~= r0);
    }
    if pos + 1 < n {
        proof {
            assert(r0[0] == s@[pos as int + 1]);
        }
        if s[pos + 1] == ']' {
            proof {
                assert(r0.skip(1) =~= s@.skip(pos as int + 2));
            }
            let done: Vec<u64> = Vec::new();
            proof {
                assert(done@ =~= Seq::<u64>::empty());
            }
            return Some((done, pos + 2));
        }
    }
    let (first, cur0) = match p_u64(s, pos + 1) {
        Some(q) => q,
        None => {
            return None;
        },
    };
    let ghost fm = num64_parse()(r0)->Some_0.0;
    let mut out: Vec<u64> = Vec::new();
    out.push(first);
    let mut cur: usize = cur0;
    let mut fuel: usize = n - cur;
    proof {
        assert(out@ =~= seq![fm]);
        assert(s@.skip(cur as int).len() == n - cur);
    }
    loop
        invariant
            pos <= cur <= n,
            n == s@.len(),
            out@.len() >= 1,
            parse_array(s@.skip(pos as int), num64_parse()) == (match parse_sep_rest(
                s@.skip(cur as int),
                num64_parse(),
                ']',
                fuel as nat,
            ) {
                Some((vs, rest)) => Some((out@ + vs, rest)),
                None => None::<(Seq<u64>, Seq<char>)>,
            }),
        decreases fuel,
    {
        if cur >= n {
            proof {
                assert(s@.skip(cur as int).len() == 0);
            }
            return None;
        }
        let ghost sfx = s@.skip(cur as int);
        proof {
            assert(sfx[0] == s@[cur as int]);
            assert(sfx.skip(1) =~= s@.skip(cur as int + 1));
        }
        let c = s[cur];
        if c == ']' {
            return Some((out, cur + 1));
        }
        if c != ',' || fuel == 0 {
            return None;
        }
        match p_u64(s, cur + 1) {
            None => {
                return None;
            },
            Some((item, np)) => {
                let ghost pre = out@;
                let ghost im = num64_parse()(sfx.skip(1))->Some_0.0;
                out.push(item);
                proof {
                    assert(out@ =~= pre.push(im));
                    assert forall|vs: Seq<u64>| pre + (seq![im] + vs) == (pre.push(im)
                        + vs) by {
                        assert(pre + (seq![im] + vs) =~= pre.push(im) + vs);
                    }
                }
                cur = np;
                fuel = fuel - 1;
            },
        }
    }
}

/// Reads a JSON object of raw-text entries at a position.
fn p_entries(s: &Vec<char>, pos: usize) -> (r: Option<(Vec<(String, String)>, usize)>)
    requires
        pos <= s@.len(),
    ensures
        match parse_object(s@.skip(pos as int), entry_parse()) {
            Some((vs, rest)) => r matches Some(q) && q.0.deep_view() == vs && pos <= q.1 <= s@.len()
                && s@.skip(q.1 as int) == rest,
            None => r is None,
        },
{
    let n = s.len();
    if pos >= n {
        return None;
    }
    proof {
        assert(s@.skip(pos as int)[0] == s@[pos as int]);
    }
    if s[pos] != '{' {
        return None;
    }
    let ghost r0 = s@.skip(pos as int + 1);
    proof {
        assert(s@.skip(pos as int).skip(1) =~= r0);
    }
    if pos + 1 < n {
        proof {
            assert(r0[0] == s@[pos as int + 1]);
        }
        if s[pos + 1] == '}' {
            proof {
                assert(r0.skip(1) =~= s@.skip(pos as int + 2));
            }
            let done: Vec<(String, String)> = Vec::new();
            proof {
                assert(done.deep_view() =~= Seq::<(Seq<char>, Seq<char>)>::empty());
            }
            return Some((done, pos + 2));
        }
    }
    let (first, cur0) = match p_entry(s, pos + 1) {
        Some(q) => q,
        None => {
            return None;
        },
    };
    let ghost fm = entry_parse()(r0)->Some_0.0;
    let mut out: Vec<(String, String)> = Vec::new();
    out.push(first);
    let mut cur: usize = cur0;
    let mut fuel: usize = n - cur;
    proof {
        assert(out.deep_view() =~= seq![fm]);
        assert(s@.skip(cur as int).len() == n - cur);
    }
    loop
        invariant
            pos <= cur <= n,
            n == s@.len(),
            out.deep_view().len() >= 1,
            parse_object(s@.skip(pos as int), entry_parse()) == (match parse_sep_rest(
                s@.skip(cur as int),
                entry_parse(),
                '}',
                fuel as nat,
            ) {
                Some((vs, rest)) => Some((out.deep_view() + vs, rest)),
                None => None::<(Seq<(Seq<char>, Seq<char>)>, Seq<char>)>,
            }),
        decreases fuel,
    {
        if cur >= n {
            proof {
                assert(s@.skip(cur as int).len() == 0);
            }
            return None;
        }
        let ghost sfx = s@.skip(cur as int);
        proof {
            assert(sfx[0] == s@[cur as int]);
            assert(sfx.skip(1) =~= s@.skip(cur as int + 1));
        }
        let c = s[cur];
        if c == '}' {
            return Some((out, cur + 1));
        }
        if c != ',' || fuel == 0 {
            return None;
        }
        match p_entry(s, cur + 1) {
            None => {
                return None;
            },
            Some((item, np)) => {
                let ghost pre = out.deep_view();
                let ghost im = entry_parse()(sfx.skip(1))->Some_0.0;
                out.push(item);
                proof {
                    assert(out.deep_view() =~= pre.push(im));
                    assert forall|vs: Seq<(Seq<char>, Seq<char>)>| pre + (seq![im] + vs) == (pre.push(im)
                        + vs) by {
                        assert(pre + (seq![im] + vs) =~= pre.push(im) + vs);
                    }
                }
                cur = np;
                fuel = fuel - 1;
            },
        }
    }
}

/// Reads an untagged JSON-RPC value at a position.
fn p_inner(s: &Vec<char>, pos: usize) -> (r: Option<(InnerData, usize)>)
    requires
        pos <= s@.len(),
    ensures
        match parse_inner(s@.skip(pos as int)) {
            Some((d, rest)) => r matches Some(q) && q.0.deep_view() == d && pos <= q.1 <= s@.len()
                && s@.skip(q.1 as int) == rest,
            None => r is None,
        },
{
    let n = s.len();
    if pos >= n {
        return None;
    }
    proof {
        assert(s@.skip(pos as int)[0] == s@[pos as int]);
    }
    let c = s[pos];
    if c == '"' {
        match p_string(s, pos) {
            Some((t, np)) => Some((InnerData::Text(t), np)),
            None => None,
        }
    } else if c == '[' {
        if pos + 1 >= n {
            return None;
        }
        proof {
            assert(s@.skip(pos as int)[1] == s@[pos as int + 1]);
        }
        let c1 = s[pos + 1];
        if c1 == ']' {
            proof {
                assert(s@.skip(pos as int).skip(2) =~= s@.skip(pos as int + 2));
            }
            let done: Vec<String> = Vec::new();
            proof {
                assert(done.deep_view() =~= Seq::<Seq<char>>::empty());
            }
            Some((InnerData::TextArray(done), pos + 2))
        } else if c1 == '"' {
            match p_strings(s, pos) {
                Some((v, np)) => Some((InnerData::TextArray(v), np)),
                None => None,
            }
        } else {
            let u1 = c1 as u32;
            if 48 <= u1 && u1 <= 57 {
                proof {
                    assert(is_dec_digit(c1));
                }
                match p_u64s(s, pos) {
                    Some((v, np)) => Some((InnerData::NumberArray(v), np)),
                    None => None,
                }
            } else {
                proof {
                    assert(!is_dec_digit(c1));
                }
                None
            }
        }
    } else if c == 't' || c == 'f' {
        match p_bool(s, pos) {
            Some((b, np)) => Some((InnerData::Boolean(b), np)),
            None => None,
        }
    } else if c == '{' {
        match p_entries(s, pos) {
            Some((es, np)) => Some((InnerData::Object(es), np)),
            None => None,
        }
    } else {
        None
    }
}

/// A result value with the same model as a parameter value.
fn to_response_inner(d: InnerData) -> (r: ResponseInnerData)
    ensures
        r.deep_view() == d.deep_view(),
{
    match d {
        InnerData::Text(t) => ResponseInnerData::Text(t),
        InnerData::TextArray(v) => ResponseInnerData::TextArray(v),
        InnerData::NumberArray(v) => ResponseInnerData::NumberArray(v),
        InnerData::Boolean(b) => ResponseInnerData::Boolean(b),
        InnerData::Object(es) => ResponseInnerData::Object(es),
    }
}

/// Reads a JSON array of parameter values at a position.
fn p_params(s: &Vec<char>, pos: usize) -> (r: Option<(Vec<InnerData>, usize)>)
    requires
        pos <= s@.len(),
    ensures
        match parse_array(s@.skip(pos as int), inner_parse()) {
            Some((vs, rest)) => r matches Some(q) && q.0.deep_view() == vs && pos <= q.1 <= s@.len()
                && s@.skip(q.1 as int) == rest,
            None => r is None,
        },
{
    let n = s.len();
    if pos >= n {
        return None;
    }
    proof {
        assert(s@.skip(pos as int)[0] == s@[pos as int]);
    }
    if s[pos] != '[' {
        return None;
    }
    let ghost r0 = s@.skip(pos as int + 1);
    proof {
        assert(s@.skip(pos as int).skip(1) =~= r0);
    }
    if pos + 1 < n {
        proof {
            assert(r0[0] == s@[pos as int + 1]);
        }
        if s[pos + 1] == ']' {
            proof {
                assert(r0.skip(1) =~= s@.skip(pos as int + 2));
            }
            let done: Vec<InnerData> = Vec::new();
            proof {
                assert(done.deep_view() =~= Seq::<InnerDataModel>::empty());
            }
            return Some((done, pos + 2));
        }
    }
    let (first, cur0) = match p_inner(s, pos + 1) {
        Some(q) => q,
        None => {
            return None;
        },
    };
    let ghost fm = inner_parse()(r0)->Some_0.0;
    let mut out: Vec<InnerData> = Vec::new();
    out.push(first);
    let mut cur: usize = cur0;
    let mut fuel: usize = n - cur;
    proof {
        assert(out.deep_view() =~= seq![fm]);
        assert(s@.skip(cur as int).len() == n - cur);
    }
    loop
        invariant
            pos <= cur <= n,
            n == s@.len(),
            out.deep_view().len() >= 1,
            parse_array(s@.skip(pos as int), inner_parse()) == (match parse_sep_rest(
                s@.skip(cur as int),
                inner_parse(),
                ']',
                fuel as nat,
            ) {
                Some((vs, rest)) => Some((out.deep_view() + vs, rest)),
                None => None::<(Seq<InnerDataModel>, Seq<char>)>,
            }),
        decreases fuel,
    {
        if cur >= n {
            proof {
                assert(s@.skip(cur as int).len() == 0);
            }
            return None;
        }
        let ghost sfx = s@.skip(cur as int);
        proof {
            assert(sfx[0] == s@[cur as int]);
            assert(sfx.skip(1) =~= s@.skip(cur as int + 1));
        }
        let c = s[cur];
        if c == ']' {
            return Some((out, cur + 1));
        }
        if c != ',' || fuel == 0 {
            return None;
        }
        match p_inner(s, cur + 1) {
            None => {
                return None;
            },
            Some((item, np)) => {
                let ghost pre = out.deep_view();
                let ghost im = inner_parse()(sfx.skip(1))->Some_0.0;
                out.push(item);
                proof {
                    assert(out.deep_view() =~= pre.push(im));
                    assert forall|vs: Seq<InnerDataModel>| pre + (seq![im] + vs) == (pre.push(im)
                        + vs) by {
                        assert(pre + (seq![im] + vs) =~= pre.push(im) + vs);
                    }
                }
                cur = np;
                fuel = fuel - 1;
            },
        }
    }
}

/// Reads an optional result value at a position.
fn p_opt_result(s: &Vec<char>, pos: usize) -> (r: Option<(Option<ResponseInnerData>, usize)>)
    requires
        pos <= s@.len(),
    ensures
        match parse_opt_inner(s@.skip(pos as int)) {
            Some((o, rest)) => r matches Some(q) && q.0.deep_view() == o && pos <= q.1 <= s@.len()
                && s@.skip(q.1 as int) == rest,
            None => r is None,
        },
{
    let n = s.len();
    let ghost win = s@.skip(pos as int);
    proof {
        assert(forall|j: int| 0 <= j < win.len() ==> win[j] == s@[pos + j]);
    }
    if n - pos >= 4 && s[pos] == 'n' && s[pos + 1] == 'u' && s[pos + 2] == 'l' && s[pos + 3]
        == 'l' {
        proof {
            assert(win.skip(4) =~= s@.skip(pos as int + 4));
        }
        return Some((None, pos + 4));
    }
    match p_inner(s, pos) {
        Some((d, np)) => Some((Some(to_response_inner(d)), np)),
        None => None,
    }
}

/// Reads a response record at a position.
fn p_response(s: &Vec<char>, pos: usize) -> (r: Option<(Response, usize)>)
    requires
        pos <= s@.len(),
    ensures
        match parse_response(s@.skip(pos as int)) {
            Some((m, rest)) => r matches Some(q) && q.0.deep_view() == m && pos <= q.1 <= s@.len()
                && s@.skip(q.1 as int) == rest,
            None => r is None,
        },
{
    let n = s.len();
    let np0 = match p_expect(s, pos, "{\"method\":") {
        Some(q) => q,
        None => {
            return None;
        },
    };
    let (method, np1) = match p_string(s, np0) {
        Some(q) => q,
        None => {
            return None;
        },
    };
    let np2 = match p_expect(s, np1, ",\"params\":") {
        Some(q) => q,
        None => {
            return None;
        },
    };
    let (params, np3) = match p_params(s, np2) {
        Some(q) => q,
        None => {
            return None;
        },
    };
    let np4 = match p_expect(s, np3, ",\"result\":") {
        Some(q) => q,
        None => {
            return None;
        },
    };
    let (result, np5) = match p_opt_result(s, np4) {
        Some(q) => q,
        None => {
            return None;
        },
    };
    let np6 = match p_expect(s, np5, ",\"time_taken\":") {
        Some(q) => q,
        None => {
            return None;
        },
    };
    let (time_taken, np7) = match p_number(s, np6) {
        Some(q) => q,
        None => {
            return None;
        },
    };
    let np8 = match p_expect(s, np7, ",\"start_time\":") {
        Some(q) => q,
        None => {
            return None;
        },
    };
    let (start_time, np9) = match p_number(s, np8) {
        Some(q) => q,
        None => {
            return None;
        },
    };
    if np9 >= n {
        proof {
            assert(s@.skip(np9 as int).len() == 0);
        }
        return None;
    }
    proof {
        assert(s@.skip(np9 as int)[0] == s@[np9 as int]);
        assert(s@.skip(np9 as int).skip(1) =~= s@.skip(np9 as int + 1));
    }
    if s[np9] != '}' {
        return None;
    }
    let rec = Response { method, params, result, time_taken, start_time };
    proof {
        let pr = parse_response(s@.skip(pos as int));
        assert(pr matches Some(p2) && rec.deep_view() =~~= p2.0 && s@.skip(np9 as int + 1)
            == p2.1);
    }
    Some((rec, np9 + 1))
}

/// Reads a JSON array of response records at a position.
fn p_responses(s: &Vec<char>, pos: usize) -> (r: Option<(Vec<Response>, usize)>)
    requires
        pos <= s@.len(),
    ensures
        match parse_array(s@.skip(pos as int), response_parse()) {
            Some((vs, rest)) => r matches Some(q) && q.0.deep_view() == vs && pos <= q.1 <= s@.len()
                && s@.skip(q.1 as int) == rest,
            None => r is None,
        },
{
    let n = s.len();
    if pos >= n {
        return None;
    }
    proof {
        assert(s@.skip(pos as int)[0] == s@[pos as int]);
    }
    if s[pos] != '[' {
        return None;
    }
    let ghost r0 = s@.skip(pos as int + 1);
    proof {
        assert(s@.skip(pos as int).skip(1) =~= r0);
    }
    if pos + 1 < n {
        proof {
            assert(r0[0] == s@[pos as int + 1]);
        }
        if s[pos + 1] == ']' {
            proof {
                assert(r0.skip(1) =~= s@.skip(pos as int + 2));
            }
            let done: Vec<Response> = Vec::new();
            proof {
                assert(done.deep_view() =~= Seq::<ResponseModel>::empty());
            }
            return Some((done, pos + 2));
        }
    }
    let (first, cur0) = match p_response(s, pos + 1) {
        Some(q) => q,
        None => {
            return None;
        },
    };
    let ghost fm = response_parse()(r0)->Some_0.0;
    let mut out: Vec<Response> = Vec::new();
    out.push(first);
    let mut cur: usize = cur0;
    let mut fuel: usize = n - cur;
    proof {
        assert(out.deep_view() =~= seq![fm]);
        assert(s@.skip(cur as int).len() == n - cur);
    }
    loop
        invariant
            pos <= cur <= n,
            n == s@.len(),
            out.deep_view().len() >= 1,
            parse_array(s@.skip(pos as int), response_parse()) == (match parse_sep_rest(
                s@.skip(cur as int),
                response_parse(),
                ']',
                fuel as nat,
            ) {
                Some((vs, rest)) => Some((out.deep_view() + vs, rest)),
                None => None::<(Seq<ResponseModel>, Seq<char>)>,
            }),
        decreases fuel,
    {
        if cur >= n {
            proof {
                assert(s@.skip(cur as int).len() == 0);
            }
            return None;
        }
        let ghost sfx = s@.skip(cur as int);
        proof {
            assert(sfx[0] == s@[cur as int]);
            assert(sfx.skip(1) =~= s@.skip(cur as int + 1));
        }
        let c = s[cur];
        if c == ']' {
            return Some((out, cur + 1));
        }
        if c != ',' || fuel == 0 {
            return None;
        }
        match p_response(s, cur + 1) {
            None => {
                return None;
            },
            Some((item, np)) => {
                let ghost pre = out.deep_view();
                let ghost im = response_parse()(sfx.skip(1))->Some_0.0;
                out.push(item);
                proof {
                    assert(out.deep_view() =~= pre.push(im));
                    assert forall|vs: Seq<ResponseModel>| pre + (seq![im] + vs) == (pre.push(im)
                        + vs) by {
                        assert(pre + (seq![im] + vs) =~= pre.push(im) + vs);
                    }
                }
                cur = np;
                fuel = fuel - 1;
            },
        }
    }
}

/// Reads an endpoint record at a position.
fn p_rpc(s: &Vec<char>, pos: usize) -> (r: Option<(RPC, usize)>)
    requires
        pos <= s@.len(),
    ensures
        match parse_rpc(s@.skip(pos as int)) {
            Some((m, rest)) => r matches Some(q) && q.0.deep_view() == m && pos <= q.1 <= s@.len()
                && s@.skip(q.1 as int) == rest,
            None => r is None,
        },
{
    let n = s.len();
    let np0 = match p_expect(s, pos, "{\"url\":") {
        Some(q) => q,
        None => {
            return None;
        },
    };
    let (url, np1) = match p_string(s, np0) {
        Some(q) => q,
        None => {
            return None;
        },
    };
    let np2 = match p_expect(s, np1, ",\"avg_response_time\":") {
        Some(q) => q,
        None => {
            return None;
        },
    };
    let (avg_response_time, np3) = match p_number(s, np2) {
        Some(q) => q,
        None => {
            return None;
        },
    };
    let np4 = match p_expect(s, np3, ",\"connections\":") {
        Some(q) => q,
        None => {
            return None;
        },
    };
    let (connections, np5) = match p_u64(s, np4) {
        Some(q) => q,
        None => {
            return None;
        },
    };
    let np6 = match p_expect(s, np5, ",\"weight\":") {
        Some(q) => q,
        None => {
            return None;
        },
    };
    let (weight, np7) = match p_u64(s, np6) {
        Some(q) => q,
        None => {
            return None;
        },
    };
    let np8 = match p_expect(s, np7, ",\"response_counter\":") {
        Some(q) => q,
        None => {
            return None;
        },
    };
    let (response_counter, np9) = match p_u64(s, np8) {
        Some(q) => q,
        None => {
            return None;
        },
    };
    let np10 = match p_expect(s, np9, ",\"responses\":") {
        Some(q) => q,
        None => {
            return None;
        },
    };
    let (responses, np11) = match p_responses(s, np10) {
        Some(q) => q,
        None => {
            return None;
        },
    };
    if np11 >= n {
        proof {
            assert(s@.skip(np11 as int).len() == 0);
        }
        return None;
    }
    proof {
        assert(s@.skip(np11 as int)[0] == s@[np11 as int]);
        assert(s@.skip(np11 as int).skip(1) =~= s@.skip(np11 as int + 1));
    }
    if s[np11] != '}' {
        return None;
    }
    let rec = RPC { url, avg_response_time, connections, weight, response_counter, responses };
    proof {
        let pr = parse_rpc(s@.skip(pos as int));
        assert(pr matches Some(p2) && rec.deep_view() =~~= p2.0 && s@.skip(np11 as int + 1)
            == p2.1);
    }
    Some((rec, np11 + 1))
}

/// Reads a JSON array of endpoint records at a position.
fn p_rpcs(s: &Vec<char>, pos: usize) -> (r: Option<(Vec<RPC>, usize)>)
    requires
        pos <= s@.len(),
    ensures
        match parse_array(s@.skip(pos as int), rpc_parse()) {
            Some((vs, rest)) => r matches Some(q) && q.0.deep_view() == vs && pos <= q.1 <= s@.len()
                && s@.skip(q.1 as int) == rest,
            None => r is None,
        },
{
    let n = s.len();
    if pos >= n {
        return None;
    }
    proof {
        assert(s@.skip(pos as int)[0] == s@[pos as int]);
    }
    if s[pos] != '[' {
        return None;
    }
    let ghost r0 = s@.skip(pos as int + 1);
    proof {
        assert(s@.skip(pos as int).skip(1) =~= r0);
    }
    if pos + 1 < n {
        proof {
            assert(r0[0] == s@[pos as int + 1]);
        }
        if s[pos + 1] == ']' {
            proof {
                assert(r0.skip(1) =~= s@.skip(pos as int + 2));
            }
            let done: Vec<RPC> = Vec::new();
            proof {
                assert(done.deep_view() =~= Seq::<RpcModel>::empty());
            }
            return Some((done, pos + 2));
        }
    }
    let (first, cur0) = match p_rpc(s, pos + 1) {
        Some(q) => q,
        None => {
            return None;
        },
    };
    let ghost fm = rpc_parse()(r0)->Some_0.0;
    let mut out: Vec<RPC> = Vec::new();
    out.push(first);
    let mut cur: usize = cur0;
    let mut fuel: usize = n - cur;
    proof {
        assert(out.deep_view() =~= seq![fm]);
        assert(s@.skip(cur as int).len() == n - cur);
    }
    loop
        invariant
            pos <= cur <= n,
            n == s@.len(),
            out.deep_view().len() >= 1,
            parse_array(s@.skip(pos as int), rpc_parse()) == (match parse_sep_rest(
                s@.skip(cur as int),
                rpc_parse(),
                ']',
                fuel as nat,
            ) {
                Some((vs, rest)) => Some((out.deep_view() + vs, rest)),
                None => None::<(Seq<RpcModel>, Seq<char>)>,
            }),
        decreases fuel,
    {
        if cur >= n {
            proof {
                assert(s@.skip(cur as int).len() == 0);
            }
            return None;
        }
        let ghost sfx = s@.skip(cur as int);
        proof {
            assert(sfx[0] == s@[cur as int]);
            assert(sfx.skip(1) =~= s@.skip(cur as int + 1));
        }
        let c = s[cur];
        if c == ']' {
            return Some((out, cur + 1));
        }
        if c != ',' || fuel == 0 {
            return None;
        }
        match p_rpc(s, cur + 1) {
            None => {
                return None;
            },
            Some((item, np)) => {
                let ghost pre = out.deep_view();
                let ghost im = rpc_parse()(sfx.skip(1))->Some_0.0;
                out.push(item);
                proof {
                    assert(out.deep_view() =~= pre.push(im));
                    assert forall|vs: Seq<RpcModel>| pre + (seq![im] + vs) == (pre.push(im)
                        + vs) by {
                        assert(pre + (seq![im] + vs) =~= pre.push(im) + vs);
                    }
                }
                cur = np;
                fuel = fuel - 1;
            },
        }
    }
}

/// Reads one cache slot at a position.
fn p_slot(s: &Vec<char>, pos: usize) -> (r: Option<((String, Response), usize)>)
    requires
        pos <= s@.len(),
    ensures
        match parse_slot(s@.skip(pos as int)) {
            Some((e, rest)) => r matches Some(q) && q.0.deep_view() == e && pos <= q.1 <= s@.len()
                && s@.skip(q.1 as int) == rest,
            None => r is None,
        },
{
    let (k, np1) = match p_string(s, pos) {
        Some(q) => q,
        None => {
            return None;
        },
    };
    let n = s.len();
    if np1 >= n {
        proof {
            assert(s@.skip(np1 as int).len() == 0);
        }
        return None;
    }
    proof {
        assert(s@.skip(np1 as int)[0] == s@[np1 as int]);
        assert(s@.skip(np1 as int).skip(1) =~= s@.skip(np1 as int + 1));
    }
    if s[np1] != ':' {
        return None;
    }
    let (rec, np2) = match p_response(s, np1 + 1) {
        Some(q) => q,
        None => {
            return None;
        },
    };
    Some(((k, rec), np2))
}

/// Reads the JSON object of cache slots at a position.
fn p_slots(s: &Vec<char>, pos: usize) -> (r: Option<(Vec<(String, Response)>, usize)>)
    requires
        pos <= s@.len(),
    ensures
        match parse_object(s@.skip(pos as int), slot_parse()) {
            Some((vs, rest)) => r matches Some(q) && q.0.deep_view() == vs && pos <= q.1 <= s@.len()
                && s@.skip(q.1 as int) == rest,
            None => r is None,
        },
{
    let n = s.len();
    if pos >= n {
        return None;
    }
    proof {
        assert(s@.skip(pos as int)[0] == s@[pos as int]);
    }
    if s[pos] != '{' {
        return None;
    }
    let ghost r0 = s@.skip(pos as int + 1);
    proof {
        assert(s@.skip(pos as int).skip(1) =~= r0);
    }
    if pos + 1 < n {
        proof {
            assert(r0[0] == s@[pos as int + 1]);
        }
        if s[pos + 1] == '}' {
            proof {
                assert(r0.skip(1) =~= s@.skip(pos as int + 2));
            }
            let done: Vec<(String, Response)> = Vec::new();
            proof {
                assert(done.deep_view() =~= Seq::<(Seq<char>, ResponseModel)>::empty());
            }
            return Some((done, pos + 2));
        }
    }
    let (first, cur0) = match p_slot(s, pos + 1) {
        Some(q) => q,
        None => {
            return None;
        },
    };
    let ghost fm = slot_parse()(r0)->Some_0.0;
    let mut out: Vec<(String, Response)> = Vec::new();
    out.push(first);
    let mut cur: usize = cur0;
    let mut fuel: usize = n - cur;
    proof {
        assert(out.deep_view() =~= seq![fm]);
        assert(s@.skip(cur as int).len() == n - cur);
    }
    loop
        invariant
            pos <= cur <= n,
            n == s@.len(),
            out.deep_view().len() >= 1,
            parse_object(s@.skip(pos as int), slot_parse()) == (match parse_sep_rest(
                s@.skip(cur as int),
                slot_parse(),
                '}',
                fuel as nat,
            ) {
                Some((vs, rest)) => Some((out.deep_view() + vs, rest)),
                None => None::<(Seq<(Seq<char>, ResponseModel)>, Seq<char>)>,
            }),
        decreases fuel,
    {
        if cur >= n {
            proof {
                assert(s@.skip(cur as int).len() == 0);
            }
            return None;
        }
        let ghost sfx = s@.skip(cur as int);
        proof {
            assert(sfx[0] == s@[cur as int]);
            assert(sfx.skip(1) =~= s@.skip(cur as int + 1));
        }
        let c = s[cur];
        if c == '}' {
            return Some((out, cur + 1));
        }
        if c != ',' || fuel == 0 {
            return None;
        }
        match p_slot(s, cur + 1) {
            None => {
                return None;
            },
            Some((item, np)) => {
                let ghost pre = out.deep_view();
                let ghost im = slot_parse()(sfx.skip(1))->Some_0.0;
                out.push(item);
                proof {
                    assert(out.deep_view() =~= pre.push(im));
                    assert forall|vs: Seq<(Seq<char>, ResponseModel)>| pre + (seq![im] + vs) == (pre.push(im)
                        + vs) by {
                        assert(pre + (seq![im] + vs) =~= pre.push(im) + vs);
                    }
                }
                cur = np;
                fuel = fuel - 1;
            },
        }
    }
}

/// Whether no two cache slots share a method.
fn slots_unique(v: &Vec<(String, Response)>) -> (r: bool)
    ensures
        r == cache_keys_unique(v.deep_view()),
{
    let ghost entries = v.deep_view();
    let n = v.len();
    let mut i: usize = 0;
    while i < n
        invariant
            i <= n,
            n == v@.len(),
            entries == v.deep_view(),
            entries.len() == n,
            forall|p: int, q: int|
                0 <= p < q < i ==> (#[trigger] entries[p]).0 != (#[trigger] entries[q]).0,
        decreases n - i,
    {
        let mut j: usize = 0;
        while j < i
            invariant
                j <= i < n,
                n == v@.len(),
                entries == v.deep_view(),
                entries.len() == n,
                forall|p: int| 0 <= p < j ==> (#[trigger] entries[p]).0 != entries[i as int].0,
            decreases i - j,
        {
            if v[j].0 == v[i].0 {
                proof {
                    assert(entries[j as int].0 == entries[i as int].0);
                    assert(!cache_keys_unique(entries));
                }
                return false;
            }
            j = j + 1;
        }
        proof {
            assert forall|p: int, q: int|
                0 <= p < q < i + 1 implies (#[trigger] entries[p]).0 != (
            #[trigger] entries[q]).0 by {
                if q == i as int {
                    assert(entries[p].0 != entries[i as int].0);
                }
            }
        }
        i = i + 1;
    }
    true
}

/// Rehydrates a pool from its JSON snapshot form. Only a complete,
/// well-formed snapshot — one whole encoded pool with at least one
/// endpoint and at most one cache slot per method — is accepted.
pub fn from_snapshot(text: &str) -> (r: Option<ExecutionClient>)
    ensures
        match parse_snapshot(text@) {
            Some(cm) => if wf_client(cm) {
                r matches Some(c) && c.deep_view() == cm
            } else {
                r is None
            },
            None => r is None,
        },
{
    let len = text.unicode_len();
    let mut cs: Vec<char> = Vec::new();
    let mut i: usize = 0;
    while i < len
        invariant
            i <= len,
            len == text@.len(),
            cs@ == text@.take(i as int),
        decreases len - i,
    {
        cs.push(text.get_char(i));
        proof {
            assert(cs@ =~= text@.take(i as int + 1));
        }
        i = i + 1;
    }
    proof {
        assert(cs@ =~= text@);
        assert(cs@.skip(0) =~= cs@);
    }
    let nn = cs.len();
    let np0 = match p_expect(&cs, 0, "{\"chain_type\":") {
        Some(q) => q,
        None => {
            return None;
        },
    };
    let (chain_type, np1) = match p_chain(&cs, np0) {
        Some(q) => q,
        None => {
            return None;
        },
    };
    let np2 = match p_expect(&cs, np1, ",\"chain_id\":") {
        Some(q) => q,
        None => {
            return None;
        },
    };
    let (chain_id, np3) = match p_string(&cs, np2) {
        Some(q) => q,
        None => {
            return None;
        },
    };
    let np4 = match p_expect(&cs, np3, ",\"rpc_urls\":") {
        Some(q) => q,
        None => {
            return None;
        },
    };
    let (rpc_urls, np5) = match p_rpcs(&cs, np4) {
        Some(q) => q,
        None => {
            return None;
        },
    };
    let np6 = match p_expect(&cs, np5, ",\"max_connections\":") {
        Some(q) => q,
        None => {
            return None;
        },
    };
    let (max_connections, np7) = match p_u64(&cs, np6) {
        Some(q) => q,
        None => {
            return None;
        },
    };
    let np8 = match p_expect(&cs, np7, ",\"max_responses\":") {
        Some(q) => q,
        None => {
            return None;
        },
    };
    let (max_responses, np9) = match p_u64(&cs, np8) {
        Some(q) => q,
        None => {
            return None;
        },
    };
    let np10 = match p_expect(&cs, np9, ",\"max_retries\":") {
        Some(q) => q,
        None => {
            return None;
        },
    };
    let (max_retries, np11) = match p_u64(&cs, np10) {
        Some(q) => q,
        None => {
            return None;
        },
    };
    let np12 = match p_expect(&cs, np11, ",\"cache\":{\"cache_clear\":") {
        Some(q) => q,
        None => {
            return None;
        },
    };
    let (cache_clear, np13) = match p_number(&cs, np12) {
        Some(q) => q,
        None => {
            return None;
        },
    };
    let np14 = match p_expect(&cs, np13, ",\"exclude_methods\":") {
        Some(q) => q,
        None => {
            return None;
        },
    };
    let (exclude_methods, np15) = match p_strings(&cs, np14) {
        Some(q) => q,
        None => {
            return None;
        },
    };
    let np16 = match p_expect(&cs, np15, "},\"response_results\":") {
        Some(q) => q,
        None => {
            return None;
        },
    };
    let (response_results, np17) = match p_slots(&cs, np16) {
        Some(q) => q,
        None => {
            return None;
        },
    };
    if np17 >= nn {
        proof {
            assert(cs@.skip(np17 as int).len() == 0);
        }
        return None;
    }
    proof {
        assert(cs@.skip(np17 as int)[0] == cs@[np17 as int]);
        assert(cs@.skip(np17 as int).skip(1) =~= cs@.skip(np17 as int + 1));
    }
    if cs[np17] != '}' {
        return None;
    }
    if np17 + 1 != nn {
        proof {
            assert(cs@.skip(np17 as int + 1).len() > 0);
        }
        return None;
    }
    let client = ExecutionClient {
        chain_type,
        chain_id,
        rpc_urls,
        max_connections,
        max_responses,
        max_retries,
        cache: CacheOptions { cache_clear, exclude_methods },
        response_results,
    };
    proof {
        let pc = parse_client(text@);
        assert(pc matches Some(p2) && client.deep_view() =~~= p2.0 && p2.1.len() == 0);
    }
    if client.rpc_urls.len() < 1 {
        return None;
    }
    if !slots_unique(&client.response_results) {
        return None;
    }
    Some(client)
}

} // verus!
