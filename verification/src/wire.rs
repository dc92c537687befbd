//! The wire format, as mathematics: a function from a value to its canonical
//! byte sequence, and a function from a byte sequence to the value (and byte
//! count) one decode consumes, or the error it stops with. The executable
//! codec is specified against these two functions.

use vstd::prelude::*;

use crate::model::BValue;
use crate::model::ParseError;
use crate::model::lex_lt;
use crate::model::spec_is_digit;

verus! {

/// The number a digit run denotes in decimal.
pub open spec fn dec_val(s: Seq<u8>) -> nat
    decreases s.len(),
{
    if s.len() == 0 {
        0
    } else {
        (dec_val(s.drop_last()) * 10 + (s.last() - 48)) as nat
    }
}

/// The canonical decimal digit run for `n`: no sign, no leading zeros.
pub open spec fn dec_rep(n: nat) -> Seq<u8>
    decreases n,
{
    if n < 10 {
        seq![(48 + n) as u8]
    } else {
        dec_rep(n / 10).push((48 + n % 10) as u8)
    }
}

/// The encoding of a byte string: decimal length, `:`, the bytes verbatim.
pub open spec fn enc_bytes(data: Seq<u8>) -> Seq<u8> {
    dec_rep(data.len()) + seq![58u8] + data
}

/// The canonical encoding of a value.
pub open spec fn enc(v: BValue) -> Seq<u8>
    decreases v, 1int,
{
    match v {
        BValue::Integer(raw) => seq![105u8] + raw + seq![101u8],
        BValue::Bytes(data) => enc_bytes(data),
        BValue::Array(items) => seq![108u8] + enc_values(items) + seq![101u8],
        BValue::Object(entries) => seq![100u8] + enc_entries(entries) + seq![101u8],
    }
}

/// The concatenated encodings of a list's items, in order.
pub open spec fn enc_values(items: Seq<BValue>) -> Seq<u8>
    decreases items, 0int,
{
    if items.len() == 0 {
        Seq::empty()
    } else {
        enc(items[0]) + enc_values(items.subrange(1, items.len() as int))
    }
}

/// The concatenated encodings of a dict's entries: each key as a byte
/// string, then its value.
pub open spec fn enc_entries(entries: Seq<(Seq<u8>, BValue)>) -> Seq<u8>
    decreases entries, 0int,
{
    if entries.len() == 0 {
        Seq::empty()
    } else {
        enc_bytes(entries[0].0) + enc(entries[0].1)
            + enc_entries(entries.subrange(1, entries.len() as int))
    }
}

/// The maximal digit run at the head of `s`, or `None` when `s` runs out
/// before a non-digit byte is seen.
pub open spec fn sdigits(s: Seq<u8>) -> Option<Seq<u8>>
    decreases s.len(),
{
    if s.len() == 0 {
        None
    } else if spec_is_digit(s[0]) {
        match sdigits(s.subrange(1, s.len() as int)) {
            None => None,
            Some(d) => Some(seq![s[0]] + d),
        }
    } else {
        Some(Seq::empty())
    }
}

/// What a maximal digit run looks like: a proper prefix of the input made of
/// digits, stopped by the first non-digit byte; `None` only when every byte
/// of the input is a digit.
pub proof fn lemma_sdigits_props(s: Seq<u8>)
    ensures
        match sdigits(s) {
            Some(d) => {
                &&& d.len() < s.len()
                &&& d == s.subrange(0, d.len() as int)
                &&& forall|i: int| 0 <= i < d.len() ==> spec_is_digit(#[trigger] d[i])
                &&& !spec_is_digit(s[d.len() as int])
            },
            None => forall|i: int| 0 <= i < s.len() ==> spec_is_digit(#[trigger] s[i]),
        },
    decreases s.len(),
{
    if s.len() == 0 {
    } else if spec_is_digit(s[0]) {
        let s1 = s.subrange(1, s.len() as int);
        lemma_sdigits_props(s1);
        match sdigits(s1) {
            None => {
                assert forall|i: int| 0 <= i < s.len() implies spec_is_digit(#[trigger] s[i]) by {
                    if i > 0 {
                        assert(spec_is_digit(s1[i - 1]));
                    }
                }
            },
            Some(d1) => {
                let d = seq![s[0]] + d1;
                assert(sdigits(s) == Some(d));
                assert forall|i: int| 0 <= i < d.len() implies spec_is_digit(#[trigger] d[i]) by {
                    if i > 0 {
                        assert(d[i] == d1[i - 1]);
                    }
                }
                assert(d == s.subrange(0, d.len() as int)) by {
                    assert forall|i: int| 0 <= i < d.len() implies d[i] == s[i] by {
                        if i > 0 {
                            assert(d[i] == d1[i - 1]);
                            assert(d1[i - 1] == s1.subrange(0, d1.len() as int)[i - 1]);
                        }
                    }
                    assert(d =~= s.subrange(0, d.len() as int));
                }
                assert(s[d.len() as int] == s1[d1.len() as int]);
            },
        }
    } else {
        assert(sdigits(s) == Some(Seq::<u8>::empty()));
        assert(Seq::<u8>::empty() =~= s.subrange(0, 0));
    }
}

/// Peeling the last digit off a prefix: the denoted number gains one
/// decimal place.
pub proof fn lemma_dec_val_step(s: Seq<u8>, i: int)
    requires
        0 <= i < s.len(),
        spec_is_digit(s[i]),
    ensures
        dec_val(s.subrange(0, i + 1)) == dec_val(s.subrange(0, i)) * 10 + (s[i] - 48),
{
    let t = s.subrange(0, i + 1);
    assert(t.drop_last() =~= s.subrange(0, i));
    assert(t.last() == s[i]);
}

/// A digit run's value never shrinks as the run extends.
pub proof fn lemma_dec_val_mono(s: Seq<u8>, i: int, j: int)
    requires
        0 <= i <= j <= s.len(),
        forall|k: int| 0 <= k < s.len() ==> spec_is_digit(#[trigger] s[k]),
    ensures
        dec_val(s.subrange(0, i)) <= dec_val(s.subrange(0, j)),
    decreases j - i,
{
    if i < j {
        lemma_dec_val_mono(s, i, j - 1);
        lemma_dec_val_step(s, j - 1);
    }
}

/// What decoding an integer from the head of `input` yields: the raw digit
/// run between `i` and `e`, and the bytes consumed.
pub open spec fn dec_int(input: Seq<u8>) -> Result<(Seq<u8>, int), ParseError> {
    if input.len() == 0 {
        Err(ParseError::Truncated)
    } else if input[0] != 105 {
        Err(ParseError::InvalidCharacter)
    } else {
        match sdigits(input.subrange(1, input.len() as int)) {
            None => Err(ParseError::Truncated),
            Some(d) => {
                let after = 1 + d.len() as int;
                if after >= input.len() {
                    Err(ParseError::Truncated)
                } else if input[after] == 101 {
                    Ok((d, after + 1))
                } else {
                    Err(ParseError::InvalidCharacter)
                }
            },
        }
    }
}

/// What decoding a byte string from the head of `input` yields. The decimal
/// run before `:` must be non-empty and fit a `usize`; the payload is then
/// up to that many following bytes, fewer only when the input runs out.
pub open spec fn dec_bytes(input: Seq<u8>) -> Result<(Seq<u8>, int), ParseError> {
    match sdigits(input) {
        None => Err(ParseError::Truncated),
        Some(d) => {
            if d.len() == 0 || dec_val(d) > usize::MAX {
                Err(ParseError::InvalidLength)
            } else {
                let i = d.len() as int;
                if i >= input.len() {
                    Err(ParseError::Truncated)
                } else if input[i] != 58 {
                    Err(ParseError::InvalidCharacter)
                } else {
                    let rest = input.subrange(i + 1, input.len() as int);
                    let taken = if dec_val(d) <= rest.len() {
                        dec_val(d) as int
                    } else {
                        rest.len() as int
                    };
                    Ok((rest.subrange(0, taken), i + 1 + taken))
                }
            }
        },
    }
}

/// A sorted-map insert over the entry sequence: with non-decreasing key
/// arrival, a repeated key can only be the last entry's, whose value the new
/// one replaces; any other key is appended.
pub open spec fn dict_insert(
    acc: Seq<(Seq<u8>, BValue)>,
    key: Seq<u8>,
    v: BValue,
) -> Seq<(Seq<u8>, BValue)> {
    if acc.len() > 0 && acc.last().0 == key {
        acc.drop_last().push((key, v))
    } else {
        acc.push((key, v))
    }
}

/// What decoding one value from the head of `input` yields, and how many
/// bytes it consumes; the single lookahead byte picks the production.
pub open spec fn dec(input: Seq<u8>) -> Result<(BValue, int), ParseError>
    decreases input.len(), 0int,
{
    if input.len() == 0 {
        Err(ParseError::Truncated)
    } else if input[0] == 105 {
        match dec_int(input) {
            Ok((raw, n)) => Ok((BValue::Integer(raw), n)),
            Err(e) => Err(e),
        }
    } else if input[0] == 108 {
        match dec_values(input.subrange(1, input.len() as int), Seq::empty()) {
            Ok((items, n)) => Ok((BValue::Array(items), 1 + n)),
            Err(e) => Err(e),
        }
    } else if input[0] == 100 {
        match dec_entries(input.subrange(1, input.len() as int), Seq::empty()) {
            Ok((entries, n)) => Ok((BValue::Object(entries), 1 + n)),
            Err(e) => Err(e),
        }
    } else if spec_is_digit(input[0]) {
        match dec_bytes(input) {
            Ok((data, n)) => Ok((BValue::Bytes(data), n)),
            Err(e) => Err(e),
        }
    } else {
        Err(ParseError::InvalidCharacter)
    }
}

/// The rest of a list body: values accumulate onto `acc` until the closing
/// `e`, which is consumed. The bound checks on consumed counts never fire on
/// a count `dec` actually returns; they only ground the recursion.
pub open spec fn dec_values(
    input: Seq<u8>,
    acc: Seq<BValue>,
) -> Result<(Seq<BValue>, int), ParseError>
    decreases input.len(), 1int,
{
    if input.len() == 0 {
        Err(ParseError::Truncated)
    } else if input[0] == 101 {
        Ok((acc, 1))
    } else {
        match dec(input) {
            Err(e) => Err(e),
            Ok((v, n)) => {
                if 1 <= n <= input.len() {
                    match dec_values(input.subrange(n, input.len() as int), acc.push(v)) {
                        Err(e) => Err(e),
                        Ok((items, m)) => Ok((items, n + m)),
                    }
                } else {
                    Err(ParseError::Truncated)
                }
            },
        }
    }
}

/// The rest of a dict body: byte-string keys and their values accumulate
/// onto `acc` until the closing `e`, which is consumed. A key below the
/// previous key stops the parse; an equal key overwrites.
pub open spec fn dec_entries(
    input: Seq<u8>,
    acc: Seq<(Seq<u8>, BValue)>,
) -> Result<(Seq<(Seq<u8>, BValue)>, int), ParseError>
    decreases input.len(), 1int,
{
    if input.len() == 0 {
        Err(ParseError::Truncated)
    } else if input[0] == 101 {
        Ok((acc, 1))
    } else {
        match dec_bytes(input) {
            Err(e) => Err(e),
            Ok((key, n)) => {
                if acc.len() > 0 && lex_lt(key, acc.last().0) {
                    Err(ParseError::OutOfOrderKey)
                } else if 1 <= n <= input.len() {
                    match dec(input.subrange(n, input.len() as int)) {
                        Err(e) => Err(e),
                        Ok((v, m)) => {
                            if 1 <= m <= input.len() - n {
                                match dec_entries(
                                    input.subrange(n + m, input.len() as int),
                                    dict_insert(acc, key, v),
                                ) {
                                    Err(e) => Err(e),
                                    Ok((entries, t)) => Ok((entries, n + m + t)),
                                }
                            } else {
                                Err(ParseError::Truncated)
                            }
                        },
                    }
                } else {
                    Err(ParseError::Truncated)
                }
            },
        }
    }
}

} // verus!
