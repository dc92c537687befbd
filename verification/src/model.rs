//! The value model: the four-variant document tree, its mathematical view,
//! well-formedness, and the byte-lexicographic key order.

use vstd::prelude::*;

verus! {

/// A parsed document: a tagged union with exactly four variants.
///
/// `Integer` carries the raw ASCII digit run between the `i` and `e`
/// delimiters, unparsed, so arbitrary precision and leading zeros survive a
/// round trip. `Object` carries its entries in ascending byte-lexicographic
/// key order; that order is an invariant of well-formed values, not caller
/// intent.
#[derive(Debug, PartialEq, Eq)]
pub enum Bencode {
    Integer(Vec<u8>),
    Bytes(Vec<u8>),
    Array(Vec<Bencode>),
    Object(Vec<(Vec<u8>, Bencode)>),
}

/// The four ways a decode can fail. The first error anywhere in the
/// recursive descent aborts the whole parse and propagates unchanged.
#[derive(Debug, Clone, Copy, PartialEq, Eq, Structural)]
pub enum ParseError {
    /// Input ended before a production could close.
    Truncated,
    /// A byte cannot begin or continue the expected production.
    InvalidCharacter,
    /// The digit run before a byte string's `:` is no usable length.
    InvalidLength,
    /// A dict's keys were not non-decreasing in byte-lexicographic order.
    OutOfOrderKey,
}

/// The mathematical shadow of `Bencode`: the same tree over `Seq` instead of
/// `Vec`. Contracts and the wire-format model speak of this type.
pub enum BValue {
    Integer(Seq<u8>),
    Bytes(Seq<u8>),
    Array(Seq<BValue>),
    Object(Seq<(Seq<u8>, BValue)>),
}

impl View for Bencode {
    type V = BValue;

    open spec fn view(&self) -> BValue
        decreases self, 1int,
    {
        match self {
            Bencode::Integer(raw) => BValue::Integer(raw@),
            Bencode::Bytes(data) => BValue::Bytes(data@),
            Bencode::Array(items) => BValue::Array(view_values(items@)),
            Bencode::Object(entries) => BValue::Object(view_entries(entries@)),
        }
    }
}

pub open spec fn view_values(items: Seq<Bencode>) -> Seq<BValue>
    decreases items, 0int,
{
    if items.len() == 0 {
        Seq::empty()
    } else {
        seq![items[0]@] + view_values(items.subrange(1, items.len() as int))
    }
}

pub open spec fn view_entries(entries: Seq<(Vec<u8>, Bencode)>) -> Seq<(Seq<u8>, BValue)>
    decreases entries, 0int,
{
    if entries.len() == 0 {
        Seq::empty()
    } else {
        seq![(entries[0].0@, entries[0].1@)]
            + view_entries(entries.subrange(1, entries.len() as int))
    }
}

/// The view of a value sequence is element-wise.
pub proof fn lemma_view_values_props(items: Seq<Bencode>)
    ensures
        view_values(items).len() == items.len(),
        forall|i: int| 0 <= i < items.len() ==> #[trigger] view_values(items)[i] == items[i]@,
    decreases items.len(),
{
    if items.len() > 0 {
        let tail = items.subrange(1, items.len() as int);
        assert(view_values(items) == seq![items[0]@] + view_values(tail));
        lemma_view_values_props(tail);
        assert forall|i: int| 0 <= i < items.len() implies #[trigger] view_values(items)[i]
            == items[i]@ by {
            if i > 0 {
                assert(view_values(items)[i] == view_values(tail)[i - 1]);
                assert(tail[i - 1] == items[i]);
            }
        }
    }
}

/// The view of an entry sequence is element-wise on keys and values.
pub proof fn lemma_view_entries_props(entries: Seq<(Vec<u8>, Bencode)>)
    ensures
        view_entries(entries).len() == entries.len(),
        forall|i: int| 0 <= i < entries.len()
            ==> #[trigger] view_entries(entries)[i] == (entries[i].0@, entries[i].1@),
    decreases entries.len(),
{
    if entries.len() > 0 {
        let tail = entries.subrange(1, entries.len() as int);
        assert(view_entries(entries) == seq![(entries[0].0@, entries[0].1@)] + view_entries(tail));
        lemma_view_entries_props(tail);
        assert forall|i: int| 0 <= i < entries.len() implies #[trigger] view_entries(entries)[i]
            == (entries[i].0@, entries[i].1@) by {
            if i > 0 {
                assert(view_entries(entries)[i] == view_entries(tail)[i - 1]);
                assert(tail[i - 1] == entries[i]);
            }
        }
    }
}

/// Whether `b` is an ASCII decimal digit.
pub open spec fn spec_is_digit(b: u8) -> bool {
    48 <= b <= 57
}

/// Strict byte-lexicographic order on byte sequences, the order `Object`
/// keys are kept in.
pub open spec fn lex_lt(a: Seq<u8>, b: Seq<u8>) -> bool
    decreases a.len(),
{
    if b.len() == 0 {
        false
    } else if a.len() == 0 {
        true
    } else if a[0] < b[0] {
        true
    } else if a[0] > b[0] {
        false
    } else {
        lex_lt(a.subrange(1, a.len() as int), b.subrange(1, b.len() as int))
    }
}

/// Any two byte sequences are ordered or equal.
pub proof fn lemma_lex_connex(a: Seq<u8>, b: Seq<u8>)
    ensures
        lex_lt(a, b) || lex_lt(b, a) || a == b,
    decreases a.len(),
{
    if b.len() == 0 {
        if a.len() == 0 {
            assert(a =~= b);
        }
    } else if a.len() == 0 {
    } else if a[0] == b[0] {
        let a1 = a.subrange(1, a.len() as int);
        let b1 = b.subrange(1, b.len() as int);
        lemma_lex_connex(a1, b1);
        if a1 == b1 {
            assert forall|i: int| 0 <= i < a.len() implies a[i] == b[i] by {
                if i > 0 {
                    assert(a1[i - 1] == b1[i - 1]);
                }
            }
            assert(a =~= b);
        }
    }
}

/// The order is strict: no two sequences are below each other.
pub proof fn lemma_lex_asym(a: Seq<u8>, b: Seq<u8>)
    requires
        lex_lt(a, b),
    ensures
        !lex_lt(b, a),
        a != b,
    decreases a.len(),
{
    if a.len() > 0 && b.len() > 0 && a[0] == b[0] {
        lemma_lex_asym(a.subrange(1, a.len() as int), b.subrange(1, b.len() as int));
        if a == b {
            assert(a.subrange(1, a.len() as int) =~= b.subrange(1, b.len() as int));
        }
    } else {
        if a == b {
            assert(a.len() == b.len());
        }
    }
}

/// Well-formedness: what every decoded value satisfies, and what the
/// round-trip laws ask of caller-built values. Integer payloads are digit
/// runs; byte strings and keys are short enough for their length to be a
/// `usize`; object keys are strictly increasing.
pub open spec fn wf(v: BValue) -> bool
    decreases v, 1int,
{
    match v {
        BValue::Integer(raw) => forall|i: int| 0 <= i < raw.len() ==> spec_is_digit(#[trigger] raw[i]),
        BValue::Bytes(data) => data.len() <= usize::MAX,
        BValue::Array(items) => wf_values(items),
        BValue::Object(entries) => {
            &&& wf_entries(entries)
            &&& forall|i: int|
                0 <= i < entries.len() - 1 ==> lex_lt(#[trigger] entries[i].0, entries[i + 1].0)
        },
    }
}

pub open spec fn wf_values(items: Seq<BValue>) -> bool
    decreases items, 0int,
{
    if items.len() == 0 {
        true
    } else {
        wf(items[0]) && wf_values(items.subrange(1, items.len() as int))
    }
}

pub open spec fn wf_entries(entries: Seq<(Seq<u8>, BValue)>) -> bool
    decreases entries, 0int,
{
    if entries.len() == 0 {
        true
    } else {
        entries[0].0.len() <= usize::MAX && wf(entries[0].1)
            && wf_entries(entries.subrange(1, entries.len() as int))
    }
}

/// Recursion and quantification agree on what a well-formed item sequence is.
pub proof fn lemma_wf_values_iff(items: Seq<BValue>)
    ensures
        wf_values(items) <==> (forall|i: int| 0 <= i < items.len() ==> wf(#[trigger] items[i])),
    decreases items.len(),
{
    if items.len() > 0 {
        let tail = items.subrange(1, items.len() as int);
        lemma_wf_values_iff(tail);
        if wf_values(items) {
            assert forall|i: int| 0 <= i < items.len() implies wf(#[trigger] items[i]) by {
                if i > 0 {
                    assert(wf(tail[i - 1]));
                }
            }
        }
        if forall|i: int| 0 <= i < items.len() ==> wf(#[trigger] items[i]) {
            assert forall|i: int| 0 <= i < tail.len() implies wf(#[trigger] tail[i]) by {
                assert(tail[i] == items[i + 1]);
            }
        }
    }
}

/// Recursion and quantification agree on what a well-formed entry sequence is.
pub proof fn lemma_wf_entries_iff(entries: Seq<(Seq<u8>, BValue)>)
    ensures
        wf_entries(entries) <==> (forall|i: int|
            0 <= i < entries.len() ==> (#[trigger] entries[i]).0.len() <= usize::MAX
                && wf(entries[i].1)),
    decreases entries.len(),
{
    if entries.len() > 0 {
        let tail = entries.subrange(1, entries.len() as int);
        lemma_wf_entries_iff(tail);
        if wf_entries(entries) {
            assert forall|i: int| 0 <= i < entries.len() implies (#[trigger] entries[i]).0.len()
                <= usize::MAX && wf(entries[i].1) by {
                if i > 0 {
                    assert(tail[i - 1].0.len() <= usize::MAX && wf(tail[i - 1].1));
                }
            }
        }
        if forall|i: int| 0 <= i < entries.len() ==> (#[trigger] entries[i]).0.len() <= usize::MAX
            && wf(entries[i].1) {
            assert forall|i: int| 0 <= i < tail.len() implies (#[trigger] tail[i]).0.len()
                <= usize::MAX && wf(tail[i].1) by {
                assert(tail[i] == entries[i + 1]);
            }
        }
    }
}

} // verus!
