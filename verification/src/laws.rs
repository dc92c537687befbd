//! The round-trip laws: decoding the canonical encoding of any well-formed
//! value yields that value back, so canonical documents survive a
//! decode/encode cycle byte for byte.

use vstd::prelude::*;

use crate::model::BValue;
use crate::model::ParseError;
use crate::model::lemma_lex_asym;
use crate::model::lex_lt;
use crate::model::spec_is_digit;
use crate::model::wf;
use crate::model::wf_entries;
use crate::model::wf_values;
use crate::wire::dec;
use crate::wire::dec_bytes;
use crate::wire::dec_entries;
use crate::wire::dec_int;
use crate::wire::dec_rep;
use crate::wire::dec_val;
use crate::wire::dec_values;
use crate::wire::dict_insert;
use crate::wire::enc;
use crate::wire::enc_bytes;
use crate::wire::enc_entries;
use crate::wire::enc_values;
use crate::wire::sdigits;

verus! {

/// The canonical decimal run of `n` is a non-empty digit run denoting `n`.
proof fn lemma_dec_rep_digits(n: nat)
    ensures
        dec_rep(n).len() >= 1,
        forall|i: int| 0 <= i < dec_rep(n).len() ==> spec_is_digit(#[trigger] dec_rep(n)[i]),
        dec_val(dec_rep(n)) == n,
    decreases n,
{
    if n < 10 {
        let d = dec_rep(n);
        assert(d == seq![(48 + n) as u8]);
        assert(d.drop_last() =~= Seq::<u8>::empty());
        assert(dec_val(Seq::<u8>::empty()) == 0);
        assert(dec_val(d) == n);
    } else {
        lemma_dec_rep_digits(n / 10);
        let prefix = dec_rep(n / 10);
        let d = prefix.push((48 + n % 10) as u8);
        assert(d.drop_last() =~= prefix);
        assert(dec_val(d) == dec_val(prefix) * 10 + (n % 10));
        assert((n / 10) * 10 + n % 10 == n);
        assert forall|i: int| 0 <= i < d.len() implies spec_is_digit(#[trigger] d[i]) by {
            if i < prefix.len() {
                assert(spec_is_digit(prefix[i]));
            }
        }
    }
}

/// A digit run followed by anything starting with a non-digit is scanned
/// back whole.
proof fn lemma_sdigits_of_digits(d: Seq<u8>, rest: Seq<u8>)
    requires
        forall|i: int| 0 <= i < d.len() ==> spec_is_digit(#[trigger] d[i]),
        rest.len() > 0,
        !spec_is_digit(rest[0]),
    ensures
        sdigits(d + rest) == Some(d),
    decreases d.len(),
{
    let u = d + rest;
    if d.len() == 0 {
        assert(u =~= rest);
        assert(sdigits(u) == Some(Seq::<u8>::empty()));
        assert(Seq::<u8>::empty() =~= d);
    } else {
        let d1 = d.subrange(1, d.len() as int);
        lemma_sdigits_of_digits(d1, rest);
        assert(u.subrange(1, u.len() as int) =~= d1 + rest);
        assert(u[0] == d[0]);
        assert(sdigits(u) == Some(seq![d[0]] + d1));
        assert(seq![d[0]] + d1 =~= d);
    }
}

/// Decoding the encoding of a byte string yields it back whole.
proof fn lemma_dec_bytes_enc(data: Seq<u8>, rest: Seq<u8>)
    requires
        data.len() <= usize::MAX,
    ensures
        dec_bytes(enc_bytes(data) + rest) == Ok::<(Seq<u8>, int), ParseError>(
            (data, enc_bytes(data).len() as int),
        ),
{
    let d = dec_rep(data.len());
    lemma_dec_rep_digits(data.len());
    let u = enc_bytes(data) + rest;
    let tail = seq![58u8] + (data + rest);
    assert(u =~= d + tail);
    lemma_sdigits_of_digits(d, tail);
    assert(sdigits(u) == Some(d));
    let i = d.len() as int;
    assert(u[i] == 58);
    let rest2 = u.subrange(i + 1, u.len() as int);
    assert(rest2 =~= data + rest);
    assert(rest2.subrange(0, data.len() as int) =~= data);
}

/// The first byte of an encoding picks the production it came from, and is
/// never the container terminator `e`.
proof fn lemma_enc_head(v: BValue)
    ensures
        enc(v).len() >= 2,
        enc(v)[0] != 101,
        v is Integer ==> enc(v)[0] == 105,
        v is Array ==> enc(v)[0] == 108,
        v is Object ==> enc(v)[0] == 100,
        v is Bytes ==> spec_is_digit(enc(v)[0]),
{
    match v {
        BValue::Integer(raw) => {
            assert(enc(v)[0] == 105);
        },
        BValue::Bytes(data) => {
            lemma_dec_rep_digits(data.len());
            assert(enc(v)[0] == dec_rep(data.len())[0]);
        },
        BValue::Array(items) => {
            assert(enc(v)[0] == 108);
        },
        BValue::Object(entries) => {
            assert(enc(v)[0] == 100);
        },
    }
}

/// Decoding the encoding of any well-formed value, with any trailing bytes,
/// yields exactly that value and consumes exactly its encoding.
pub proof fn lemma_dec_enc(v: BValue, rest: Seq<u8>)
    requires
        wf(v),
    ensures
        dec(enc(v) + rest) == Ok::<(BValue, int), ParseError>((v, enc(v).len() as int)),
    decreases v, 1int,
{
    let u = enc(v) + rest;
    lemma_enc_head(v);
    match v {
        BValue::Integer(raw) => {
            let tail1 = seq![101u8] + rest;
            assert(u[0] == 105);
            let u1 = u.subrange(1, u.len() as int);
            assert(u1 =~= raw + tail1);
            lemma_sdigits_of_digits(raw, tail1);
            assert(sdigits(u1) == Some(raw));
            let after = 1 + raw.len() as int;
            assert(after < u.len());
            assert(u[after] == 101);
            assert(dec_int(u) == Ok::<(Seq<u8>, int), ParseError>((raw, after + 1)));
        },
        BValue::Bytes(data) => {
            lemma_dec_bytes_enc(data, rest);
            assert(dec_bytes(u) == Ok::<(Seq<u8>, int), ParseError>(
                (data, enc_bytes(data).len() as int),
            ));
        },
        BValue::Array(items) => {
            assert(u[0] == 108);
            let u1 = u.subrange(1, u.len() as int);
            assert(u1 =~= enc_values(items) + seq![101u8] + rest);
            lemma_dec_enc_values(items, Seq::empty(), rest);
            assert(Seq::<BValue>::empty() + items =~= items);
        },
        BValue::Object(entries) => {
            assert(u[0] == 100);
            let u1 = u.subrange(1, u.len() as int);
            assert(u1 =~= enc_entries(entries) + seq![101u8] + rest);
            lemma_dec_enc_entries(entries, Seq::empty(), rest);
            assert(Seq::<(Seq<u8>, BValue)>::empty() + entries =~= entries);
        },
    }
}

/// The list-body analogue of `lemma_dec_enc`: decoding the concatenated
/// encodings of well-formed items, then `e`, appends the items to the
/// accumulator and consumes up to and including the `e`.
pub proof fn lemma_dec_enc_values(items: Seq<BValue>, acc: Seq<BValue>, rest: Seq<u8>)
    requires
        wf_values(items),
    ensures
        dec_values(enc_values(items) + seq![101u8] + rest, acc) == Ok::<
            (Seq<BValue>, int),
            ParseError,
        >((acc + items, enc_values(items).len() as int + 1)),
    decreases items, 0int,
{
    let u = enc_values(items) + seq![101u8] + rest;
    if items.len() == 0 {
        assert(u =~= seq![101u8] + rest);
        assert(u[0] == 101);
        assert(acc + items =~= acc);
    } else {
        let v0 = items[0];
        let tail = items.subrange(1, items.len() as int);
        assert(enc_values(items) == enc(v0) + enc_values(tail));
        let u2 = enc_values(tail) + seq![101u8] + rest;
        assert(u =~= enc(v0) + u2);
        lemma_enc_head(v0);
        assert(u[0] == enc(v0)[0]);
        assert(u[0] != 101);
        lemma_dec_enc(v0, u2);
        assert(dec(u) == Ok::<(BValue, int), ParseError>((v0, enc(v0).len() as int)));
        let n = enc(v0).len() as int;
        assert(1 <= n <= u.len());
        assert(u.subrange(n, u.len() as int) =~= u2);
        lemma_dec_enc_values(tail, acc.push(v0), rest);
        assert(acc.push(v0) + tail =~= acc + items);
    }
}

/// The dict-body analogue of `lemma_dec_enc`: decoding the concatenated
/// entry encodings of a strictly key-sorted, well-formed body, then `e`,
/// appends the entries to the accumulator, provided the accumulator's last
/// key lies below the first new key.
#[verifier::rlimit(100)]
pub proof fn lemma_dec_enc_entries(
    entries: Seq<(Seq<u8>, BValue)>,
    acc: Seq<(Seq<u8>, BValue)>,
    rest: Seq<u8>,
)
    requires
        wf_entries(entries),
        forall|i: int| 0 <= i < entries.len() - 1 ==> lex_lt(
            #[trigger] entries[i].0,
            entries[i + 1].0,
        ),
        acc.len() > 0 && entries.len() > 0 ==> lex_lt(acc.last().0, entries[0].0),
    ensures
        dec_entries(enc_entries(entries) + seq![101u8] + rest, acc) == Ok::<
            (Seq<(Seq<u8>, BValue)>, int),
            ParseError,
        >((acc + entries, enc_entries(entries).len() as int + 1)),
    decreases entries, 0int,
{
    let u = enc_entries(entries) + seq![101u8] + rest;
    if entries.len() == 0 {
        assert(u =~= seq![101u8] + rest);
        assert(u[0] == 101);
        assert(acc + entries =~= acc);
    } else {
        let k0 = entries[0].0;
        let v0 = entries[0].1;
        let tail = entries.subrange(1, entries.len() as int);
        assert(enc_entries(entries) == enc_bytes(k0) + enc(v0) + enc_entries(tail));
        let u3 = enc_entries(tail) + seq![101u8] + rest;
        let u2 = enc(v0) + u3;
        assert(u =~= enc_bytes(k0) + u2);
        lemma_dec_rep_digits(k0.len());
        assert(u[0] == dec_rep(k0.len())[0]);
        assert(spec_is_digit(u[0]));
        lemma_dec_bytes_enc(k0, u2);
        assert(dec_bytes(u) == Ok::<(Seq<u8>, int), ParseError>(
            (k0, enc_bytes(k0).len() as int),
        ));
        let n = enc_bytes(k0).len() as int;
        if acc.len() > 0 {
            lemma_lex_asym(acc.last().0, k0);
        }
        assert(1 <= n <= u.len());
        assert(u.subrange(n, u.len() as int) =~= u2);
        lemma_dec_enc(v0, u3);
        let m = enc(v0).len() as int;
        lemma_enc_head(v0);
        assert(1 <= m <= u.len() - n);
        assert(u.subrange(n + m, u.len() as int) =~= u3);
        assert(dict_insert(acc, k0, v0) == acc.push((k0, v0)));
        assert((k0, v0) == entries[0]);
        assert forall|i: int| 0 <= i < tail.len() - 1 implies lex_lt(
            #[trigger] tail[i].0,
            tail[i + 1].0,
        ) by {
            assert(tail[i] == entries[i + 1]);
            assert(tail[i + 1] == entries[i + 2]);
        }
        if tail.len() > 0 {
            assert(tail[0] == entries[1]);
            assert(lex_lt(entries[0].0, entries[1].0));
        }
        lemma_dec_enc_entries(tail, acc.push((k0, v0)), rest);
        assert(acc.push((k0, v0)) + tail =~= acc + entries);
    }
}

/// Idempotent re-encoding: decoding the canonical encoding of any
/// well-formed value yields a structurally equal value, consuming the whole
/// encoding.
pub proof fn lemma_decode_of_encode(v: BValue)
    requires
        wf(v),
    ensures
        dec(enc(v)) == Ok::<(BValue, int), ParseError>((v, enc(v).len() as int)),
{
    lemma_dec_enc(v, Seq::empty());
    assert(enc(v) + Seq::<u8>::empty() =~= enc(v));
}

/// Round-trip on canonical input: a canonical document — the encoding of a
/// well-formed value — decodes in full to a value whose re-encoding is the
/// document itself, byte for byte.
pub proof fn lemma_encode_of_decode(d: Seq<u8>)
    requires
        exists|v: BValue| wf(v) && d == enc(v),
    ensures
        match dec(d) {
            Ok((w, n)) => enc(w) == d && n == d.len() && wf(w),
            Err(_) => false,
        },
{
    let v = choose|v: BValue| wf(v) && d == enc(v);
    lemma_decode_of_encode(v);
}

} // verus!
