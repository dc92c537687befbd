//! The encoder: walks a value and appends its canonical bytes to a sink,
//! proved to append exactly `wire::enc` of the value. Encoding a value
//! cannot fail, so there is no error path.

use vstd::prelude::*;

use crate::model::Bencode;
use crate::model::lemma_view_entries_props;
use crate::model::lemma_view_values_props;
use crate::model::view_entries;
use crate::model::view_values;
use crate::wire::dec_rep;
use crate::wire::enc;
use crate::wire::enc_bytes;
use crate::wire::enc_entries;
use crate::wire::enc_values;

verus! {

/// Appending one more item's encoding extends the body's encoding.
proof fn lemma_enc_values_push(items: Seq<crate::model::BValue>, v: crate::model::BValue)
    ensures
        enc_values(items.push(v)) == enc_values(items) + enc(v),
    decreases items.len(),
{
    let whole = items.push(v);
    assert(enc_values(whole) == enc(whole[0]) + enc_values(whole.subrange(1, whole.len() as int)));
    if items.len() == 0 {
        assert(whole.subrange(1, whole.len() as int) =~= Seq::<crate::model::BValue>::empty());
        assert(enc_values(whole) =~= enc_values(items) + enc(v));
    } else {
        let tail = items.subrange(1, items.len() as int);
        assert(enc_values(items) == enc(items[0]) + enc_values(tail));
        assert(whole.subrange(1, whole.len() as int) =~= tail.push(v));
        lemma_enc_values_push(tail, v);
        assert(enc_values(whole) =~= enc_values(items) + enc(v));
    }
}

/// Appending one more entry's encoding extends the body's encoding.
proof fn lemma_enc_entries_push(
    entries: Seq<(Seq<u8>, crate::model::BValue)>,
    e: (Seq<u8>, crate::model::BValue),
)
    ensures
        enc_entries(entries.push(e)) == enc_entries(entries) + enc_bytes(e.0) + enc(e.1),
    decreases entries.len(),
{
    let whole = entries.push(e);
    assert(enc_entries(whole) == enc_bytes(whole[0].0) + enc(whole[0].1) + enc_entries(
        whole.subrange(1, whole.len() as int),
    ));
    if entries.len() == 0 {
        assert(whole.subrange(1, whole.len() as int)
            =~= Seq::<(Seq<u8>, crate::model::BValue)>::empty());
        assert(enc_entries(whole) =~= enc_entries(entries) + enc_bytes(e.0) + enc(e.1));
    } else {
        let tail = entries.subrange(1, entries.len() as int);
        assert(enc_entries(entries) == enc_bytes(entries[0].0) + enc(entries[0].1) + enc_entries(
            tail,
        ));
        assert(whole.subrange(1, whole.len() as int) =~= tail.push(e));
        lemma_enc_entries_push(tail, e);
        assert(enc_entries(whole) =~= enc_entries(entries) + enc_bytes(e.0) + enc(e.1));
    }
}

/// Append the canonical decimal digit run for `n`.
fn push_decimal(writer: &mut Vec<u8>, n: usize)
    ensures
        final(writer)@ == old(writer)@ + dec_rep(n as nat),
{
    if n < 10 {
        writer.push(48 + n as u8);
        proof {
            assert(writer@ =~= old(writer)@ + dec_rep(n as nat));
        }
        return;
    }
    let mut tmp: Vec<u8> = Vec::new();
    let mut m: usize = n;
    let ghost mut run: Seq<u8> = Seq::empty();
    while m > 0
        invariant
            m > 0 ==> dec_rep(n as nat) == dec_rep(m as nat) + run,
            m == 0 ==> dec_rep(n as nat) == run,
            tmp@.len() == run.len(),
            forall|i: int| 0 <= i < run.len() ==> tmp@[i] == run[run.len() - 1 - i],
        decreases m,
    {
        let d: u8 = 48 + (m % 10) as u8;
        tmp.push(d);
        proof {
            if m >= 10 {
                assert(dec_rep(m as nat) == dec_rep((m as nat) / 10).push(d));
                assert(dec_rep((m as nat) / 10) + (seq![d] + run) =~= dec_rep(m as nat) + run);
            } else {
                assert(dec_rep(m as nat) =~= seq![d]);
                assert(seq![d] + run =~= dec_rep(m as nat) + run);
            }
            run = seq![d] + run;
        }
        m = m / 10;
    }
    let mut j: usize = tmp.len();
    proof {
        assert(writer@ =~= old(writer)@ + run.subrange(0, run.len() - j));
    }
    while j > 0
        invariant
            j <= tmp@.len(),
            tmp@.len() == run.len(),
            forall|i: int| 0 <= i < run.len() ==> tmp@[i] == run[run.len() - 1 - i],
            writer@ == old(writer)@ + run.subrange(0, run.len() - j),
        decreases j,
    {
        j = j - 1;
        writer.push(tmp[j]);
        proof {
            assert(tmp@[j as int] == run[run.len() - 1 - j]);
            assert(writer@ =~= old(writer)@ + run.subrange(0, run.len() - j));
        }
    }
    proof {
        assert(run.subrange(0, run.len() as int) =~= run);
    }
}

/// Append the raw bytes of `data` to the sink.
fn push_bytes(writer: &mut Vec<u8>, data: &Vec<u8>)
    ensures
        final(writer)@ == old(writer)@ + data@,
{
    let mut i: usize = 0;
    proof {
        assert(writer@ =~= old(writer)@ + data@.subrange(0, 0));
    }
    while i < data.len()
        invariant
            i <= data@.len(),
            writer@ == old(writer)@ + data@.subrange(0, i as int),
        decreases data@.len() - i,
    {
        writer.push(data[i]);
        i = i + 1;
        proof {
            assert(writer@ =~= old(writer)@ + data@.subrange(0, i as int));
        }
    }
    proof {
        assert(data@.subrange(0, data@.len() as int) =~= data@);
    }
}

/// Encode one byte string: its decimal length, `:`, the bytes verbatim.
pub fn bencode_bytea(bytea: &Vec<u8>, writer: &mut Vec<u8>)
    ensures
        final(writer)@ == old(writer)@ + enc_bytes(bytea@),
{
    push_decimal(writer, bytea.len());
    writer.push(58);
    push_bytes(writer, bytea);
    proof {
        assert(writer@ =~= old(writer)@ + enc_bytes(bytea@));
    }
}

/// Write the canonical encoding of `document` onto the sink. The sink is an
/// in-memory byte buffer, so nothing can fail; what is appended is exactly
/// the canonical byte sequence of the value.
pub fn bencode(document: &Bencode, writer: &mut Vec<u8>)
    ensures
        final(writer)@ == old(writer)@ + enc(document@),
    decreases document,
{
    match document {
        Bencode::Integer(buf) => {
            writer.push(105);
            push_bytes(writer, buf);
            writer.push(101);
            proof {
                assert(writer@ =~= old(writer)@ + enc(document@));
            }
        },
        Bencode::Bytes(buf) => {
            bencode_bytea(buf, writer);
        },
        Bencode::Array(items) => {
            writer.push(108);
            proof {
                assert(decreases_to!(*document => *items));
            }
            let ghost views = view_values(items@);
            proof {
                lemma_view_values_props(items@);
                assert(views.subrange(0, 0) =~= Seq::empty());
            }
            let mut i: usize = 0;
            while i < items.len()
                invariant
                    i <= items@.len(),
                    views == view_values(items@),
                    views.len() == items@.len(),
                    decreases_to!(*document => *items),
                    forall|k: int| 0 <= k < items@.len() ==> #[trigger] views[k] == items@[k]@,
                    writer@ == old(writer)@ + seq![108u8] + enc_values(
                        views.subrange(0, i as int),
                    ),
                decreases items@.len() - i,
            {
                proof {
                    vstd::std_specs::vec::axiom_vec_index_decreases(*items, i as int);
                    assert(decreases_to!(*document => *items));
                    assert(decreases_to!(*document => items@[i as int]));
                }
                bencode(&items[i], writer);
                proof {
                    assert(views.subrange(0, i + 1) =~= views.subrange(0, i as int).push(
                        views[i as int],
                    ));
                    lemma_enc_values_push(views.subrange(0, i as int), views[i as int]);
                }
                i = i + 1;
            }
            writer.push(101);
            proof {
                assert(views.subrange(0, views.len() as int) =~= views);
                assert(writer@ =~= old(writer)@ + enc(document@));
            }
        },
        Bencode::Object(entries) => {
            writer.push(100);
            proof {
                assert(decreases_to!(*document => *entries));
            }
            let ghost views = view_entries(entries@);
            proof {
                lemma_view_entries_props(entries@);
                assert(views.subrange(0, 0) =~= Seq::empty());
            }
            let mut i: usize = 0;
            while i < entries.len()
                invariant
                    i <= entries@.len(),
                    views == view_entries(entries@),
                    views.len() == entries@.len(),
                    decreases_to!(*document => *entries),
                    forall|k: int| 0 <= k < entries@.len() ==> #[trigger] views[k] == (
                        entries@[k].0@,
                        entries@[k].1@,
                    ),
                    writer@ == old(writer)@ + seq![100u8] + enc_entries(
                        views.subrange(0, i as int),
                    ),
                decreases entries@.len() - i,
            {
                bencode_bytea(&entries[i].0, writer);
                proof {
                    vstd::std_specs::vec::axiom_vec_index_decreases(*entries, i as int);
                    assert(decreases_to!(*document => *entries));
                    assert(decreases_to!(entries@[i as int] => entries@[i as int].1));
                    assert(decreases_to!(*document => entries@[i as int].1));
                }
                bencode(&entries[i].1, writer);
                proof {
                    assert(views.subrange(0, i + 1) =~= views.subrange(0, i as int).push(
                        views[i as int],
                    ));
                    lemma_enc_entries_push(views.subrange(0, i as int), views[i as int]);
                }
                i = i + 1;
            }
            writer.push(101);
            proof {
                assert(views.subrange(0, views.len() as int) =~= views);
                assert(writer@ =~= old(writer)@ + enc(document@));
            }
        },
    }
}

} // verus!
