//! The recursive-descent decoder: one routine per syntactic form, each
//! proved to return exactly what the wire-format model `wire::dec` says for
//! the bytes it was given, consuming exactly as many bytes.

use vstd::prelude::*;

use crate::model::Bencode;
use crate::model::BValue;
use crate::model::ParseError;
use crate::model::lemma_lex_connex;
use crate::model::lemma_view_entries_props;
use crate::model::lemma_view_values_props;
use crate::model::lemma_wf_entries_iff;
use crate::model::lemma_wf_values_iff;
use crate::model::lex_lt;
use crate::model::spec_is_digit;
use crate::model::view_entries;
use crate::model::view_values;
use crate::model::wf;
use crate::model::wf_entries;
use crate::model::wf_values;
use crate::stream::ByteStream;
use crate::wire::dec;
use crate::wire::dec_bytes;
use crate::wire::dec_entries;
use crate::wire::dec_int;
use crate::wire::dec_val;
use crate::wire::dec_values;
use crate::wire::dict_insert;
use crate::wire::lemma_dec_val_mono;
use crate::wire::lemma_dec_val_step;
use crate::wire::lemma_sdigits_props;
use crate::wire::sdigits;

verus! {

/// Whether `val` is an ASCII decimal digit.
pub fn is_digit(val: u8) -> (r: bool)
    ensures
        r == spec_is_digit(val),
{
    48 <= val && val <= 57
}

/// Strict byte-lexicographic comparison, the order dict keys must arrive in.
pub fn lex_less(a: &Vec<u8>, b: &Vec<u8>) -> (r: bool)
    ensures
        r == lex_lt(a@, b@),
{
    let mut i: usize = 0;
    proof {
        assert(a@.subrange(0, a@.len() as int) =~= a@);
        assert(b@.subrange(0, b@.len() as int) =~= b@);
    }
    loop
        invariant
            i <= a@.len(),
            i <= b@.len(),
            lex_lt(a@, b@) == lex_lt(
                a@.subrange(i as int, a@.len() as int),
                b@.subrange(i as int, b@.len() as int),
            ),
        decreases a@.len() - i,
    {
        if i == b.len() {
            return false;
        }
        if i == a.len() {
            return true;
        }
        let x = a[i];
        let y = b[i];
        if x < y {
            return true;
        }
        if x > y {
            return false;
        }
        proof {
            let ai = a@.subrange(i as int, a@.len() as int);
            let bi = b@.subrange(i as int, b@.len() as int);
            assert(ai.subrange(1, ai.len() as int)
                =~= a@.subrange(i + 1, a@.len() as int));
            assert(bi.subrange(1, bi.len() as int)
                =~= b@.subrange(i + 1, b@.len() as int));
        }
        i = i + 1;
    }
}

/// Whether two byte strings are equal, byte for byte.
pub fn bytes_eq(a: &Vec<u8>, b: &Vec<u8>) -> (r: bool)
    ensures
        r == (a@ == b@),
{
    if a.len() != b.len() {
        return false;
    }
    let mut i: usize = 0;
    while i < a.len()
        invariant
            a@.len() == b@.len(),
            i <= a@.len(),
            forall|j: int| 0 <= j < i ==> a@[j] == b@[j],
        decreases a@.len() - i,
    {
        if a[i] != b[i] {
            return false;
        }
        i = i + 1;
    }
    proof {
        assert(a@ =~= b@);
    }
    true
}

/// Interpret a digit run as a decimal length; `None` when the run is empty
/// or the number does not fit a `usize`.
pub fn parse_length(digits: &Vec<u8>) -> (r: Option<usize>)
    requires
        forall|i: int| 0 <= i < digits@.len() ==> spec_is_digit(#[trigger] digits@[i]),
    ensures
        match r {
            Some(n) => digits@.len() > 0 && dec_val(digits@) == n as nat,
            None => digits@.len() == 0 || dec_val(digits@) > usize::MAX,
        },
{
    if digits.len() == 0 {
        return None;
    }
    let mut acc: u128 = 0;
    let mut i: usize = 0;
    while i < digits.len()
        invariant
            forall|k: int| 0 <= k < digits@.len() ==> spec_is_digit(#[trigger] digits@[k]),
            i <= digits@.len(),
            digits@.len() <= usize::MAX,
            acc <= usize::MAX as u128,
            acc as nat == dec_val(digits@.subrange(0, i as int)),
        decreases digits@.len() - i,
    {
        let d: u8 = digits[i] - 48;
        let next: u128 = acc * 10 + d as u128;
        proof {
            lemma_dec_val_step(digits@, i as int);
        }
        if next > usize::MAX as u128 {
            proof {
                lemma_dec_val_mono(digits@, i as int + 1, digits@.len() as int);
                assert(digits@.subrange(0, digits@.len() as int) =~= digits@);
            }
            return None;
        }
        acc = next;
        i = i + 1;
    }
    proof {
        assert(digits@.subrange(0, digits@.len() as int) =~= digits@);
    }
    Some(acc as usize)
}

/// Consume the maximal digit run at the cursor; the stream running out
/// before a non-digit byte is seen is `Truncated`.
pub fn bdecode_extract_integer(stream: &mut ByteStream) -> (r: Result<Vec<u8>, ParseError>)
    requires
        old(stream).inv(),
    ensures
        final(stream).inv(),
        final(stream).all_bytes() == old(stream).all_bytes(),
        old(stream).position() <= final(stream).position(),
        match r {
            Ok(buf) => sdigits(old(stream).remaining()) == Some(buf@)
                && final(stream).position() == old(stream).position() + buf@.len(),
            Err(e) => sdigits(old(stream).remaining()) is None && e == ParseError::Truncated,
        },
{
    let mut buf: Vec<u8> = Vec::new();
    loop
        invariant
            stream.inv(),
            stream.all_bytes() == old(stream).all_bytes(),
            stream.position() == old(stream).position() + buf@.len(),
            sdigits(old(stream).remaining()) == match sdigits(stream.remaining()) {
                None => None::<Seq<u8>>,
                Some(d) => Some(buf@ + d),
            },
        decreases stream.remaining().len(),
    {
        match stream.peek() {
            Some(val) => {
                if is_digit(val) {
                    let ghost prev = *stream;
                    let b = stream.next().unwrap();
                    buf.push(b);
                    proof {
                        prev.lemma_advance(*stream);
                        assert(stream.remaining() =~= prev.remaining().subrange(
                            1,
                            prev.remaining().len() as int,
                        ));
                        match sdigits(stream.remaining()) {
                            None => {},
                            Some(d) => {
                                assert(buf@.drop_last() + (seq![b] + d) =~= buf@ + d);
                            },
                        }
                    }
                } else {
                    proof {
                        assert(sdigits(stream.remaining()) == Some(Seq::<u8>::empty()));
                        assert(buf@ + Seq::<u8>::empty() =~= buf@);
                    }
                    return Ok(buf);
                }
            },
            None => {
                return Err(ParseError::Truncated);
            },
        }
    }
}

/// Decode an integer: `i`, a raw digit run kept verbatim, `e`.
pub fn bdecode_integer(stream: &mut ByteStream) -> (r: Result<Vec<u8>, ParseError>)
    requires
        old(stream).inv(),
    ensures
        final(stream).inv(),
        final(stream).all_bytes() == old(stream).all_bytes(),
        old(stream).position() <= final(stream).position(),
        match r {
            Ok(buf) => dec_int(old(stream).remaining()) == Ok::<(Seq<u8>, int), ParseError>(
                (buf@, final(stream).position() - old(stream).position()),
            ),
            Err(e) => dec_int(old(stream).remaining()) == Err::<(Seq<u8>, int), ParseError>(e),
        },
{
    let ghost s0 = *stream;
    match stream.next() {
        Some(b) => {
            if b != 105 {
                return Err(ParseError::InvalidCharacter);
            }
        },
        None => {
            return Err(ParseError::Truncated);
        },
    }
    let ghost s1 = *stream;
    proof {
        s0.lemma_advance(s1);
    }
    let output = match bdecode_extract_integer(stream) {
        Ok(v) => v,
        Err(e) => {
            return Err(e);
        },
    };
    proof {
        lemma_sdigits_props(s1.remaining());
        s1.lemma_advance(*stream);
    }
    let ghost s2 = *stream;
    match stream.next() {
        Some(b2) => {
            proof {
                assert(b2 == s0.remaining()[1 + output@.len() as int]);
            }
            if b2 == 101 {
                Ok(output)
            } else {
                Err(ParseError::InvalidCharacter)
            }
        },
        None => {
            proof {
                s2.lemma_bounds();
            }
            Err(ParseError::Truncated)
        },
    }
}

/// Decode a byte string: a decimal length, `:`, then up to that many
/// following bytes taken verbatim, fewer only when the source runs out.
pub fn bdecode_bytea(stream: &mut ByteStream) -> (r: Result<Vec<u8>, ParseError>)
    requires
        old(stream).inv(),
    ensures
        final(stream).inv(),
        final(stream).all_bytes() == old(stream).all_bytes(),
        old(stream).position() <= final(stream).position(),
        match r {
            Ok(buf) => dec_bytes(old(stream).remaining()) == Ok::<(Seq<u8>, int), ParseError>(
                (buf@, final(stream).position() - old(stream).position()),
            ),
            Err(e) => dec_bytes(old(stream).remaining()) == Err::<(Seq<u8>, int), ParseError>(e),
        },
{
    let ghost s0 = *stream;
    let intbuf = match bdecode_extract_integer(stream) {
        Ok(v) => v,
        Err(e) => {
            return Err(e);
        },
    };
    proof {
        lemma_sdigits_props(s0.remaining());
    }
    let length: usize = match parse_length(&intbuf) {
        Some(l) => l,
        None => {
            return Err(ParseError::InvalidLength);
        },
    };
    proof {
        s0.lemma_advance(*stream);
    }
    let ghost s1 = *stream;
    match stream.next() {
        Some(b) => {
            proof {
                assert(b == s0.remaining()[intbuf@.len() as int]);
            }
            if b == 58 {
                let ghost s2 = *stream;
                proof {
                    s0.lemma_advance(s2);
                    assert(s2.remaining() =~= s0.remaining().subrange(
                        intbuf@.len() as int + 1,
                        s0.remaining().len() as int,
                    ));
                }
                let buf = stream.take_bytes(length);
                Ok(buf)
            } else {
                Err(ParseError::InvalidCharacter)
            }
        },
        None => {
            proof {
                s1.lemma_bounds();
            }
            Err(ParseError::Truncated)
        },
    }
}

/// Decode a list body after its leading `l`: values accumulate until the
/// closing `e`, which is consumed.
pub fn bdecode_list(stream: &mut ByteStream) -> (r: Result<Vec<Bencode>, ParseError>)
    requires
        old(stream).inv(),
        old(stream).remaining().len() > 0,
        old(stream).remaining()[0] == 108,
    ensures
        final(stream).inv(),
        final(stream).all_bytes() == old(stream).all_bytes(),
        old(stream).position() < final(stream).position(),
        match r {
            Ok(items) => dec_values(
                old(stream).remaining().subrange(1, old(stream).remaining().len() as int),
                Seq::empty(),
            ) == Ok::<(Seq<BValue>, int), ParseError>(
                (
                    view_values(items@),
                    final(stream).position() - old(stream).position() - 1,
                ),
            ) && wf_values(view_values(items@)),
            Err(e) => dec_values(
                old(stream).remaining().subrange(1, old(stream).remaining().len() as int),
                Seq::empty(),
            ) == Err::<(Seq<BValue>, int), ParseError>(e),
        },
    decreases old(stream).remaining().len(), 0int,
{
    let mut output: Vec<Bencode> = Vec::new();
    stream.next();
    let ghost base = *stream;
    proof {
        old(stream).lemma_advance(base);
    }
    loop
        invariant
            old(stream).inv(),
            stream.inv(),
            base.inv(),
            stream.all_bytes() == old(stream).all_bytes(),
            base.all_bytes() == old(stream).all_bytes(),
            base.position() == old(stream).position() + 1,
            base.position() <= stream.position(),
            base.remaining() == old(stream).remaining().subrange(
                1,
                old(stream).remaining().len() as int,
            ),
            view_values(output@).len() == output@.len(),
            forall|i: int| 0 <= i < output@.len() ==> wf(#[trigger] view_values(output@)[i]),
            match dec_values(stream.remaining(), view_values(output@)) {
                Err(e) => dec_values(base.remaining(), Seq::empty())
                    == Err::<(Seq<BValue>, int), ParseError>(e),
                Ok((items, m)) => dec_values(base.remaining(), Seq::empty())
                    == Ok::<(Seq<BValue>, int), ParseError>(
                    (items, stream.position() - base.position() + m),
                ),
            },
        decreases stream.remaining().len(),
    {
        match stream.peek() {
            Some(b) => {
                if b == 101 {
                    stream.next();
                    proof {
                        lemma_wf_values_iff(view_values(output@));
                    }
                    return Ok(output);
                } else {
                    let ghost before = *stream;
                    let ghost acc0 = view_values(output@);
                    proof {
                        before.lemma_bounds();
                        old(stream).lemma_bounds();
                        base.lemma_bounds();
                    }
                    match iter_bdecode(stream) {
                        Ok(v) => {
                            let ghost prev_out = output@;
                            output.push(v);
                            proof {
                                lemma_view_values_props(prev_out);
                                lemma_view_values_props(output@);
                                assert(view_values(output@) =~= acc0.push(v@));
                                let cur = *stream;
                                cur.lemma_bounds();
                                before.lemma_advance(cur);
                            }
                        },
                        Err(e) => {
                            return Err(e);
                        },
                    }
                }
            },
            None => {
                return Err(ParseError::Truncated);
            },
        }
    }
}

/// Decode a dict body after its leading `d`: byte-string keys and their
/// values accumulate until the closing `e`, which is consumed. A key below
/// the previous one is `OutOfOrderKey`; an equal one overwrites.
pub fn bdecode_dict(stream: &mut ByteStream) -> (r: Result<Vec<(Vec<u8>, Bencode)>, ParseError>)
    requires
        old(stream).inv(),
        old(stream).remaining().len() > 0,
        old(stream).remaining()[0] == 100,
    ensures
        final(stream).inv(),
        final(stream).all_bytes() == old(stream).all_bytes(),
        old(stream).position() < final(stream).position(),
        match r {
            Ok(entries) => dec_entries(
                old(stream).remaining().subrange(1, old(stream).remaining().len() as int),
                Seq::empty(),
            ) == Ok::<(Seq<(Seq<u8>, BValue)>, int), ParseError>(
                (
                    view_entries(entries@),
                    final(stream).position() - old(stream).position() - 1,
                ),
            ) && wf_entries(view_entries(entries@)) && (forall|i: int|
                0 <= i < view_entries(entries@).len() - 1 ==> lex_lt(
                    #[trigger] view_entries(entries@)[i].0,
                    view_entries(entries@)[i + 1].0,
                )),
            Err(e) => dec_entries(
                old(stream).remaining().subrange(1, old(stream).remaining().len() as int),
                Seq::empty(),
            ) == Err::<(Seq<(Seq<u8>, BValue)>, int), ParseError>(e),
        },
    decreases old(stream).remaining().len(), 0int,
{
    let mut entries: Vec<(Vec<u8>, Bencode)> = Vec::new();
    stream.next();
    let ghost base = *stream;
    proof {
        old(stream).lemma_advance(base);
    }
    loop
        invariant
            old(stream).inv(),
            stream.inv(),
            base.inv(),
            stream.all_bytes() == old(stream).all_bytes(),
            base.all_bytes() == old(stream).all_bytes(),
            base.position() == old(stream).position() + 1,
            base.position() <= stream.position(),
            base.remaining() == old(stream).remaining().subrange(
                1,
                old(stream).remaining().len() as int,
            ),
            view_entries(entries@).len() == entries@.len(),
            forall|i: int| 0 <= i < entries@.len() ==> (#[trigger] view_entries(
                entries@,
            )[i]).0.len() <= usize::MAX && wf(view_entries(entries@)[i].1),
            forall|i: int| 0 <= i < entries@.len() - 1 ==> lex_lt(
                #[trigger] view_entries(entries@)[i].0,
                view_entries(entries@)[i + 1].0,
            ),
            match dec_entries(stream.remaining(), view_entries(entries@)) {
                Err(e) => dec_entries(base.remaining(), Seq::empty())
                    == Err::<(Seq<(Seq<u8>, BValue)>, int), ParseError>(e),
                Ok((es, m)) => dec_entries(base.remaining(), Seq::empty())
                    == Ok::<(Seq<(Seq<u8>, BValue)>, int), ParseError>(
                    (es, stream.position() - base.position() + m),
                ),
            },
        decreases stream.remaining().len(),
    {
        match stream.peek() {
            Some(b) => {
                if b == 101 {
                    stream.next();
                    proof {
                        lemma_wf_entries_iff(view_entries(entries@));
                    }
                    return Ok(entries);
                } else {
                    let ghost acc0 = view_entries(entries@);
                    let ghost before_key = *stream;
                    proof {
                        before_key.lemma_bounds();
                        old(stream).lemma_bounds();
                        base.lemma_bounds();
                    }
                    let key = match bdecode_bytea(stream) {
                        Ok(k) => k,
                        Err(e) => {
                            return Err(e);
                        },
                    };
                    proof {
                        lemma_view_entries_props(entries@);
                    }
                    if entries.len() > 0 && lex_less(&key, &entries[entries.len() - 1].0) {
                        return Err(ParseError::OutOfOrderKey);
                    }
                    let ghost before_value = *stream;
                    proof {
                        before_value.lemma_bounds();
                        before_key.lemma_advance(before_value);
                    }
                    let value = match iter_bdecode(stream) {
                        Ok(v) => v,
                        Err(e) => {
                            return Err(e);
                        },
                    };
                    let ghost prev_entries = entries@;
                    if entries.len() > 0 && bytes_eq(&entries[entries.len() - 1].0, &key) {
                        entries.pop();
                        entries.push((key, value));
                    } else {
                        entries.push((key, value));
                    }
                    proof {
                        lemma_view_entries_props(prev_entries);
                        lemma_view_entries_props(prev_entries.drop_last());
                        lemma_view_entries_props(entries@);
                        assert(view_entries(entries@) =~= dict_insert(
                            acc0,
                            key@,
                            value@,
                        ));
                        if prev_entries.len() > 0 && acc0.last().0 != key@ {
                            lemma_lex_connex(key@, prev_entries.last().0@);
                        }
                        let cur = *stream;
                        cur.lemma_bounds();
                        before_value.lemma_advance(cur);
                        before_key.lemma_advance(cur);
                    }
                }
            },
            None => {
                return Err(ParseError::Truncated);
            },
        }
    }
}

/// Decode exactly one value at the cursor: the single lookahead byte picks
/// the production. Trailing bytes are left unconsumed.
pub fn iter_bdecode(stream: &mut ByteStream) -> (r: Result<Bencode, ParseError>)
    requires
        old(stream).inv(),
    ensures
        final(stream).inv(),
        final(stream).all_bytes() == old(stream).all_bytes(),
        old(stream).position() <= final(stream).position(),
        match r {
            Ok(v) => {
                &&& dec(old(stream).remaining()) == Ok::<(BValue, int), ParseError>(
                    (v@, final(stream).position() - old(stream).position()),
                )
                &&& wf(v@)
                &&& old(stream).position() < final(stream).position()
            },
            Err(e) => dec(old(stream).remaining()) == Err::<(BValue, int), ParseError>(e),
        },
    decreases old(stream).remaining().len(), 1int,
{
    match stream.peek() {
        Some(b) => {
            if b == 105 {
                match bdecode_integer(stream) {
                    Ok(buf) => {
                        proof {
                            lemma_sdigits_props(old(stream).remaining().subrange(
                                1,
                                old(stream).remaining().len() as int,
                            ));
                        }
                        Ok(Bencode::Integer(buf))
                    },
                    Err(e) => Err(e),
                }
            } else if b == 108 {
                match bdecode_list(stream) {
                    Ok(items) => Ok(Bencode::Array(items)),
                    Err(e) => Err(e),
                }
            } else if b == 100 {
                match bdecode_dict(stream) {
                    Ok(entries) => Ok(Bencode::Object(entries)),
                    Err(e) => Err(e),
                }
            } else if is_digit(b) {
                match bdecode_bytea(stream) {
                    Ok(buf) => {
                        proof {
                            assert(buf@.len() <= usize::MAX) by {
                                vstd::std_specs::vec::axiom_spec_len(&buf);
                            }
                        }
                        Ok(Bencode::Bytes(buf))
                    },
                    Err(e) => Err(e),
                }
            } else {
                Err(ParseError::InvalidCharacter)
            }
        },
        None => Err(ParseError::Truncated),
    }
}

} // verus!
