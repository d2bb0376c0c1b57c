//! The binary form of an index and its reading back.
//!
//! Layout, every number an unsigned 64-bit integer in little-endian order:
//! the document count; the number of terms; each term as its length in
//! bytes followed by its UTF-8 bytes; one document frequency per term; then
//! one row per document as its document length, its number of entries and
//! each entry as column and count.

use crate::index::{
    build_tfidf_index, index_wf, is_index_of, row_models, IndexModel, TfidfIndex,
};
use crate::matrix::{cols_below, row_wf, Entry, RowModel, SparseRow};
use crate::text::{corpus_terms, Normalizer};
use crate::vocab::Vocabulary;
use vstd::bytes::{
    lemma_auto_spec_u64_to_from_le_bytes, spec_u64_from_le_bytes, spec_u64_to_le_bytes,
    u64_from_le_bytes, u64_to_le_bytes,
};
use vstd::prelude::*;
use vstd::slice::{slice_subrange, slice_to_vec};
use vstd::string::StringSliceAdditionalSpecFns;
use vstd::utf8::{decode_utf8, encode_utf8, valid_utf8};

verus! {

/// `piece` stands in `bytes` at offset `at`.
pub open spec fn holds_at(bytes: Seq<u8>, at: int, piece: Seq<u8>) -> bool {
    &&& 0 <= at
    &&& at + piece.len() <= bytes.len()
    &&& bytes.subrange(at, at + piece.len()) == piece
}

/// Reads a number at `at`: the value and the offset behind it.
pub open spec fn read_u64(bytes: Seq<u8>, at: int) -> Option<(u64, int)> {
    if 0 <= at && at + 8 <= bytes.len() {
        Some((spec_u64_from_le_bytes(bytes.subrange(at, at + 8)), at + 8))
    } else {
        None
    }
}

/// Reads a term at `at`: its length, then that many bytes of valid UTF-8.
pub open spec fn read_term(bytes: Seq<u8>, at: int) -> Option<(Seq<char>, int)> {
    match read_u64(bytes, at) {
        Some((len, start)) => {
            if start + len <= bytes.len() && valid_utf8(bytes.subrange(start, start + len)) {
                Some((decode_utf8(bytes.subrange(start, start + len)), start + len))
            } else {
                None
            }
        },
        None => None,
    }
}

/// Reads an entry at `at`: column, then count.
pub open spec fn read_entry(bytes: Seq<u8>, at: int) -> Option<(Entry, int)> {
    match read_u64(bytes, at) {
        Some((col, mid)) => match read_u64(bytes, mid) {
            Some((count, end)) => Some((Entry { col, count }, end)),
            None => None,
        },
        None => None,
    }
}

/// Reads `n` items one behind the other, starting at `at`.
pub open spec fn read_list<T>(
    bytes: Seq<u8>,
    at: int,
    n: nat,
    read_one: spec_fn(Seq<u8>, int) -> Option<(T, int)>,
) -> Option<(Seq<T>, int)>
    decreases n,
{
    if n == 0 {
        Some((Seq::empty(), at))
    } else {
        match read_list(bytes, at, (n - 1) as nat, read_one) {
            Some((items, next)) => match read_one(bytes, next) {
                Some((item, end)) => Some((items.push(item), end)),
                None => None,
            },
            None => None,
        }
    }
}

/// Reads a row at `at`: document length, number of entries, the entries.
pub open spec fn read_row(bytes: Seq<u8>, at: int) -> Option<(RowModel, int)> {
    match read_u64(bytes, at) {
        Some((doc_len, mid)) => match read_u64(bytes, mid) {
            Some((n, start)) => match read_list(
                bytes,
                start,
                n as nat,
                |b: Seq<u8>, p: int| read_entry(b, p),
            ) {
                Some((entries, end)) => Some((RowModel { doc_len, entries }, end)),
                None => None,
            },
            None => None,
        },
        None => None,
    }
}

/// Reads the four parts of an index from the start of `bytes`: the model
/// and the offset behind it. Nothing is checked beyond the layout.
pub open spec fn read_index(bytes: Seq<u8>) -> Option<(IndexModel, int)> {
    match read_u64(bytes, 0) {
        Some((num_docs, at_width)) => match read_u64(bytes, at_width) {
            Some((n_terms, at_terms)) => match read_list(
                bytes,
                at_terms,
                n_terms as nat,
                |b: Seq<u8>, p: int| read_term(b, p),
            ) {
                Some((terms, at_freqs)) => match read_list(
                    bytes,
                    at_freqs,
                    n_terms as nat,
                    |b: Seq<u8>, p: int| read_u64(b, p),
                ) {
                    Some((doc_freq, at_rows)) => match read_list(
                        bytes,
                        at_rows,
                        num_docs as nat,
                        |b: Seq<u8>, p: int| read_row(b, p),
                    ) {
                        Some((rows, end)) => Some(
                            (IndexModel { terms, doc_freq, num_docs, rows }, end),
                        ),
                        None => None,
                    },
                    None => None,
                },
                None => None,
            },
            None => None,
        },
        None => None,
    }
}

/// The index that `bytes` hold: the bytes must follow the layout from the
/// first to the last, and the parts must be consistent with each other.
pub open spec fn decode_index(bytes: Seq<u8>) -> Option<IndexModel> {
    match read_index(bytes) {
        Some((m, end)) => if end == bytes.len() && index_wf(m) {
            Some(m)
        } else {
            None
        },
        None => None,
    }
}

/// The bytes of a term: the length of its UTF-8 form, then that form.
pub open spec fn write_term(term: Seq<char>) -> Seq<u8> {
    spec_u64_to_le_bytes(encode_utf8(term).len() as u64) + encode_utf8(term)
}

/// The bytes of an entry.
pub open spec fn write_entry(entry: Entry) -> Seq<u8> {
    spec_u64_to_le_bytes(entry.col) + spec_u64_to_le_bytes(entry.count)
}

/// The bytes of a list: those of its items, one behind the other.
pub open spec fn write_list<T>(items: Seq<T>, write_one: spec_fn(T) -> Seq<u8>) -> Seq<u8>
    decreases items.len(),
{
    if items.len() == 0 {
        Seq::empty()
    } else {
        write_list(items.drop_last(), write_one) + write_one(items.last())
    }
}

/// The bytes of a row.
pub open spec fn write_row(row: RowModel) -> Seq<u8> {
    spec_u64_to_le_bytes(row.doc_len) + spec_u64_to_le_bytes(row.entries.len() as u64)
        + write_list(row.entries, |e: Entry| write_entry(e))
}

/// The bytes of an index.
pub open spec fn encode_index(m: IndexModel) -> Seq<u8> {
    spec_u64_to_le_bytes(m.num_docs) + spec_u64_to_le_bytes(m.terms.len() as u64) + write_list(
        m.terms,
        |t: Seq<char>| write_term(t),
    ) + write_list(m.doc_freq, |x: u64| spec_u64_to_le_bytes(x)) + write_list(
        m.rows,
        |r: RowModel| write_row(r),
    )
}

/// Every length that the layout records fits the 64 bits it is given.
pub open spec fn encodable(m: IndexModel) -> bool {
    &&& m.terms.len() <= u64::MAX
    &&& forall|j: int| 0 <= j < m.terms.len() ==> encode_utf8(#[trigger] m.terms[j]).len() <= u64::MAX
    &&& forall|i: int| 0 <= i < m.rows.len() ==> (#[trigger] m.rows[i]).entries.len() <= u64::MAX
}

/// A concatenation that stands at `at` has its first part at `at` and its
/// second part right behind.
pub proof fn lemma_holds_at_split(bytes: Seq<u8>, at: int, first: Seq<u8>, second: Seq<u8>)
    requires
        holds_at(bytes, at, first + second),
    ensures
        holds_at(bytes, at, first),
        holds_at(bytes, at + first.len(), second),
{
    let whole = first + second;
    assert(bytes.subrange(at, at + first.len()) =~= whole.subrange(0, first.len() as int));
    assert(whole.subrange(0, first.len() as int) =~= first);
    assert(bytes.subrange(at + first.len(), at + first.len() + second.len()) =~= whole.subrange(
        first.len() as int,
        whole.len() as int,
    ));
    assert(whole.subrange(first.len() as int, whole.len() as int) =~= second);
}

/// A written number is read back.
pub proof fn lemma_read_written_u64(bytes: Seq<u8>, at: int, x: u64)
    requires
        holds_at(bytes, at, spec_u64_to_le_bytes(x)),
    ensures
        spec_u64_to_le_bytes(x).len() == 8,
        read_u64(bytes, at) == Some((x, at + 8)),
{
    lemma_auto_spec_u64_to_from_le_bytes();
}

/// A written term is read back.
pub proof fn lemma_read_written_term(bytes: Seq<u8>, at: int, term: Seq<char>)
    requires
        holds_at(bytes, at, write_term(term)),
        encode_utf8(term).len() <= u64::MAX,
    ensures
        read_term(bytes, at) == Some((term, at + write_term(term).len())),
{
    broadcast use vstd::utf8::encode_utf8_valid_utf8, vstd::utf8::encode_utf8_decode_utf8;

    let raw = encode_utf8(term);
    let head = spec_u64_to_le_bytes(raw.len() as u64);
    lemma_holds_at_split(bytes, at, head, raw);
    lemma_read_written_u64(bytes, at, raw.len() as u64);
}

/// A written entry is read back.
pub proof fn lemma_read_written_entry(bytes: Seq<u8>, at: int, entry: Entry)
    requires
        holds_at(bytes, at, write_entry(entry)),
    ensures
        read_entry(bytes, at) == Some((entry, at + write_entry(entry).len())),
{
    let first = spec_u64_to_le_bytes(entry.col);
    let second = spec_u64_to_le_bytes(entry.count);
    lemma_holds_at_split(bytes, at, first, second);
    lemma_read_written_u64(bytes, at, entry.col);
    lemma_read_written_u64(bytes, at + 8, entry.count);
}

/// A written list is read back, provided each of its items is read back
/// wherever it stands.
pub proof fn lemma_read_written_list<T>(
    bytes: Seq<u8>,
    at: int,
    items: Seq<T>,
    read_one: spec_fn(Seq<u8>, int) -> Option<(T, int)>,
    write_one: spec_fn(T) -> Seq<u8>,
)
    requires
        holds_at(bytes, at, write_list(items, write_one)),
        forall|k: int, p: int|
            0 <= k < items.len() && #[trigger] holds_at(bytes, p, write_one(items[k])) ==> read_one(
                bytes,
                p,
            ) == Some((items[k], p + write_one(items[k]).len())),
    ensures
        read_list(bytes, at, items.len(), read_one) == Some(
            (items, at + write_list(items, write_one).len()),
        ),
    decreases items.len(),
{
    if items.len() > 0 {
        let most = items.drop_last();
        let head = write_list(most, write_one);
        let tail = write_one(items.last());
        lemma_holds_at_split(bytes, at, head, tail);
        assert forall|k: int, p: int|
            0 <= k < most.len() && #[trigger] holds_at(bytes, p, write_one(most[k])) implies read_one(
            bytes,
            p,
        ) == Some((most[k], p + write_one(most[k]).len())) by {
            assert(most[k] == items[k]);
        }
        lemma_read_written_list(bytes, at, most, read_one, write_one);
        assert(items[items.len() - 1] == items.last());
        assert(holds_at(bytes, at + head.len(), write_one(items[items.len() - 1])));
        assert(most.push(items.last()) =~= items);
        assert(read_list(bytes, at, (items.len() - 1) as nat, read_one) == Some(
            (most, at + head.len()),
        ));
    }
}

/// Once a list cannot be read up to some length, it cannot be read beyond.
pub proof fn lemma_read_list_stops<T>(
    bytes: Seq<u8>,
    at: int,
    k: nat,
    n: nat,
    read_one: spec_fn(Seq<u8>, int) -> Option<(T, int)>,
)
    requires
        k <= n,
        read_list(bytes, at, k, read_one) is None,
    ensures
        read_list(bytes, at, n, read_one) is None,
    decreases n,
{
    if k < n {
        lemma_read_list_stops(bytes, at, k, (n - 1) as nat, read_one);
    }
}

/// A list that can be read holds as many items as were asked for.
pub proof fn lemma_read_list_len<T>(
    bytes: Seq<u8>,
    at: int,
    n: nat,
    read_one: spec_fn(Seq<u8>, int) -> Option<(T, int)>,
)
    requires
        read_list(bytes, at, n, read_one) is Some,
    ensures
        read_list(bytes, at, n, read_one).unwrap().0.len() == n,
    decreases n,
{
    if n > 0 {
        lemma_read_list_len(bytes, at, (n - 1) as nat, read_one);
    }
}

/// A written row is read back.
pub proof fn lemma_read_written_row(bytes: Seq<u8>, at: int, row: RowModel)
    requires
        holds_at(bytes, at, write_row(row)),
        row.entries.len() <= u64::MAX,
    ensures
        read_row(bytes, at) == Some((row, at + write_row(row).len())),
{
    let a = spec_u64_to_le_bytes(row.doc_len);
    let b = spec_u64_to_le_bytes(row.entries.len() as u64);
    let write_one = |e: Entry| write_entry(e);
    let read_one = |b: Seq<u8>, p: int| read_entry(b, p);
    let c = write_list(row.entries, write_one);
    lemma_holds_at_split(bytes, at, a + b, c);
    lemma_holds_at_split(bytes, at, a, b);
    lemma_read_written_u64(bytes, at, row.doc_len);
    lemma_read_written_u64(bytes, at + 8, row.entries.len() as u64);
    assert forall|k: int, p: int|
        0 <= k < row.entries.len() && #[trigger] holds_at(
            bytes,
            p,
            write_one(row.entries[k]),
        ) implies read_one(bytes, p) == Some(
        (row.entries[k], p + write_one(row.entries[k]).len()),
    ) by {
        lemma_read_written_entry(bytes, p, row.entries[k]);
    }
    lemma_read_written_list(bytes, at + 16, row.entries, read_one, write_one);
}

/// Reading what was written gives the index back: the parts that the
/// layout holds, and nothing left over.
pub proof fn lemma_read_written_index(m: IndexModel)
    requires
        m.rows.len() == m.num_docs,
        m.doc_freq.len() == m.terms.len(),
        encodable(m),
    ensures
        read_index(encode_index(m)) == Some((m, encode_index(m).len() as int)),
{
    let bytes = encode_index(m);
    let a = spec_u64_to_le_bytes(m.num_docs);
    let b = spec_u64_to_le_bytes(m.terms.len() as u64);
    let write_t = |t: Seq<char>| write_term(t);
    let read_t = |b: Seq<u8>, p: int| read_term(b, p);
    let write_f = |x: u64| spec_u64_to_le_bytes(x);
    let read_f = |b: Seq<u8>, p: int| read_u64(b, p);
    let write_r = |r: RowModel| write_row(r);
    let read_r = |b: Seq<u8>, p: int| read_row(b, p);
    let c = write_list(m.terms, write_t);
    let d = write_list(m.doc_freq, write_f);
    let e = write_list(m.rows, write_r);
    assert(bytes == a + b + c + d + e);
    assert(bytes.subrange(0, bytes.len() as int) =~= bytes);
    assert(holds_at(bytes, 0, a + b + c + d + e));
    lemma_holds_at_split(bytes, 0, a + b + c + d, e);
    lemma_holds_at_split(bytes, 0, a + b + c, d);
    lemma_holds_at_split(bytes, 0, a + b, c);
    lemma_holds_at_split(bytes, 0, a, b);
    lemma_read_written_u64(bytes, 0, m.num_docs);
    lemma_read_written_u64(bytes, 8, m.terms.len() as u64);
    assert forall|k: int, p: int|
        0 <= k < m.terms.len() && #[trigger] holds_at(bytes, p, write_t(m.terms[k])) implies read_t(
        bytes,
        p,
    ) == Some((m.terms[k], p + write_t(m.terms[k]).len())) by {
        lemma_read_written_term(bytes, p, m.terms[k]);
    }
    lemma_read_written_list(bytes, 16, m.terms, read_t, write_t);
    assert forall|k: int, p: int|
        0 <= k < m.doc_freq.len() && #[trigger] holds_at(
            bytes,
            p,
            write_f(m.doc_freq[k]),
        ) implies read_f(bytes, p) == Some((m.doc_freq[k], p + write_f(m.doc_freq[k]).len())) by {
        lemma_read_written_u64(bytes, p, m.doc_freq[k]);
    }
    lemma_read_written_list(bytes, (16 + c.len()) as int, m.doc_freq, read_f, write_f);
    assert forall|k: int, p: int|
        0 <= k < m.rows.len() && #[trigger] holds_at(bytes, p, write_r(m.rows[k])) implies read_r(
        bytes,
        p,
    ) == Some((m.rows[k], p + write_r(m.rows[k]).len())) by {
        lemma_read_written_row(bytes, p, m.rows[k]);
    }
    lemma_read_written_list(bytes, (16 + c.len() + d.len()) as int, m.rows, read_r, write_r);
}

/// Writing an index and reading the bytes back yields the same index: the
/// same vocabulary, document frequencies, document count and matrix.
pub proof fn lemma_round_trip(m: IndexModel)
    requires
        index_wf(m),
        encodable(m),
    ensures
        decode_index(encode_index(m)) == Some(m),
{
    lemma_read_written_index(m);
}

/// Why bytes were not accepted as an index.
#[derive(Debug, PartialEq, Eq)]
pub enum DecodeError {
    /// The bytes do not follow the layout, or bytes are left over behind it.
    Malformed,
    /// The layout is followed, but the parts it holds contradict each other.
    Inconsistent,
}

/// `String::from_utf8`: succeeds exactly on valid UTF-8, and then gives the
/// string that the bytes encode.
#[verifier::external_body]
fn string_from_utf8(raw: Vec<u8>) -> (text: Option<String>)
    ensures
        text is Some <==> valid_utf8(raw@),
        text matches Some(s) ==> s@ == decode_utf8(raw@),
{
    match String::from_utf8(raw) {
        Ok(s) => Some(s),
        Err(_) => None,
    }
}

fn put_u64(out: &mut Vec<u8>, x: u64)
    ensures
        final(out)@ == old(out)@ + spec_u64_to_le_bytes(x),
{
    let mut raw = u64_to_le_bytes(x);
    out.append(&mut raw);
}

fn put_term(out: &mut Vec<u8>, term: &String)
    ensures
        final(out)@ == old(out)@ + write_term(term@),
        encode_utf8(term@).len() <= u64::MAX,
{
    let ghost start = out@;
    let raw = term.as_str().as_bytes();
    assert(raw@ == encode_utf8(term@));
    let len = raw.len();
    put_u64(out, len as u64);
    let mut copy = slice_to_vec(raw);
    out.append(&mut copy);
    assert(out@ =~= start + write_term(term@));
}

fn put_row(out: &mut Vec<u8>, row: &SparseRow)
    ensures
        final(out)@ == old(out)@ + write_row(row@),
        row@.entries.len() <= u64::MAX,
{
    let ghost start = out@;
    let ghost write_one = |e: Entry| write_entry(e);
    let entries = row.entries();
    put_u64(out, row.doc_len());
    put_u64(out, entries.len() as u64);
    let ghost head = out@;
    let mut k: usize = 0;
    assert(entries@.take(0) =~= Seq::empty());
    assert(head + write_list(entries@.take(0), write_one) =~= head);
    while k < entries.len()
        invariant
            k <= entries.len(),
            write_one == |e: Entry| write_entry(e),
            out@ == head + write_list(entries@.take(k as int), write_one),
        decreases entries.len() - k,
    {
        let entry = entries[k];
        let ghost before = out@;
        put_u64(out, entry.col);
        put_u64(out, entry.count);
        proof {
            let next = entries@.take(k as int + 1);
            assert(next.drop_last() =~= entries@.take(k as int));
            assert(next.last() == entry);
            assert(out@ =~= before + write_entry(entry));
            assert(out@ =~= head + write_list(next, write_one));
        }
        k += 1;
    }
    assert(entries@.take(k as int) =~= entries@);
    assert(out@ =~= start + write_row(row@));
}

/// Writes an index in its binary form. The bytes depend on the index
/// alone, and reading them back yields the same index.
pub fn serialize(index: &TfidfIndex) -> (bytes: Vec<u8>)
    ensures
        bytes@ == encode_index(index@),
        decode_index(bytes@) == Some(index@),
{
    let ghost m = index@;
    let ghost write_t = |t: Seq<char>| write_term(t);
    let ghost write_f = |x: u64| spec_u64_to_le_bytes(x);
    let ghost write_r = |r: RowModel| write_row(r);
    let mut out: Vec<u8> = Vec::new();
    let terms = index.vocabulary().terms();
    let doc_freq = index.doc_freq();
    let rows = index.rows();
    put_u64(&mut out, index.num_docs());
    put_u64(&mut out, terms.len() as u64);
    let ghost head = out@;
    let ghost listed = terms.deep_view();
    let mut k: usize = 0;
    assert(listed.take(0) =~= Seq::empty());
    assert(head + write_list(listed.take(0), write_t) =~= head);
    while k < terms.len()
        invariant
            k <= terms.len(),
            listed == terms.deep_view(),
            write_t == |t: Seq<char>| write_term(t),
            out@ == head + write_list(listed.take(k as int), write_t),
            forall|j: int| 0 <= j < k ==> encode_utf8(#[trigger] listed[j]).len() <= u64::MAX,
        decreases terms.len() - k,
    {
        let ghost before = out@;
        put_term(&mut out, &terms[k]);
        proof {
            let next = listed.take(k as int + 1);
            assert(next.drop_last() =~= listed.take(k as int));
            assert(next.last() == terms[k as int]@);
            assert(out@ =~= head + write_list(next, write_t));
        }
        k += 1;
    }
    assert(listed.take(k as int) =~= listed);
    let ghost head = out@;
    let mut k: usize = 0;
    assert(doc_freq@.take(0) =~= Seq::empty());
    assert(head + write_list(doc_freq@.take(0), write_f) =~= head);
    while k < doc_freq.len()
        invariant
            k <= doc_freq.len(),
            write_f == |x: u64| spec_u64_to_le_bytes(x),
            out@ == head + write_list(doc_freq@.take(k as int), write_f),
        decreases doc_freq.len() - k,
    {
        put_u64(&mut out, doc_freq[k]);
        proof {
            let next = doc_freq@.take(k as int + 1);
            assert(next.drop_last() =~= doc_freq@.take(k as int));
            assert(next.last() == doc_freq[k as int]);
            assert(out@ =~= head + write_list(next, write_f));
        }
        k += 1;
    }
    assert(doc_freq@.take(k as int) =~= doc_freq@);
    let ghost head = out@;
    let ghost models = row_models(rows@);
    let mut k: usize = 0;
    assert(models.take(0) =~= Seq::empty());
    assert(head + write_list(models.take(0), write_r) =~= head);
    while k < rows.len()
        invariant
            k <= rows.len(),
            models == row_models(rows@),
            write_r == |r: RowModel| write_row(r),
            out@ == head + write_list(models.take(k as int), write_r),
            forall|i: int| 0 <= i < k ==> (#[trigger] models[i]).entries.len() <= u64::MAX,
        decreases rows.len() - k,
    {
        put_row(&mut out, &rows[k]);
        proof {
            let next = models.take(k as int + 1);
            assert(next.drop_last() =~= models.take(k as int));
            assert(next.last() == rows[k as int]@);
            assert(out@ =~= head + write_list(next, write_r));
        }
        k += 1;
    }
    assert(models.take(k as int) =~= models);
    proof {
        lemma_round_trip(m);
    }
    out
}

fn take_u64(bytes: &[u8], at: usize) -> (r: Option<(u64, usize)>)
    ensures
        match r {
            Some((x, end)) => read_u64(bytes@, at as int) == Some((x, end as int)),
            None => read_u64(bytes@, at as int) is None,
        },
{
    if at > bytes.len() || bytes.len() - at < 8 {
        return None;
    }
    let x = u64_from_le_bytes(slice_subrange(bytes, at, at + 8));
    Some((x, at + 8))
}

fn take_term(bytes: &[u8], at: usize) -> (r: Option<(String, usize)>)
    ensures
        match r {
            Some((term, end)) => read_term(bytes@, at as int) == Some((term@, end as int)),
            None => read_term(bytes@, at as int) is None,
        },
{
    match take_u64(bytes, at) {
        None => None,
        Some((len, start)) => {
            if len > (bytes.len() - start) as u64 {
                return None;
            }
            let end = start + len as usize;
            match string_from_utf8(slice_to_vec(slice_subrange(bytes, start, end))) {
                Some(term) => Some((term, end)),
                None => None,
            }
        },
    }
}

fn take_entry(bytes: &[u8], at: usize) -> (r: Option<(Entry, usize)>)
    ensures
        match r {
            Some((entry, end)) => read_entry(bytes@, at as int) == Some((entry, end as int)),
            None => read_entry(bytes@, at as int) is None,
        },
{
    match take_u64(bytes, at) {
        None => None,
        Some((col, mid)) => match take_u64(bytes, mid) {
            None => None,
            Some((count, end)) => Some((Entry { col, count }, end)),
        },
    }
}

fn take_terms(bytes: &[u8], at: usize, n: u64) -> (r: Option<(Vec<String>, usize)>)
    ensures
        match r {
            Some((terms, end)) => read_list(
                bytes@,
                at as int,
                n as nat,
                |b: Seq<u8>, p: int| read_term(b, p),
            ) == Some((terms.deep_view(), end as int)),
            None => read_list(bytes@, at as int, n as nat, |b: Seq<u8>, p: int| read_term(b, p))
                is None,
        },
{
    let ghost read_one = |b: Seq<u8>, p: int| read_term(b, p);
    let mut terms: Vec<String> = Vec::new();
    let mut pos = at;
    let mut k: u64 = 0;
    assert(terms.deep_view() =~= Seq::empty());
    while k < n
        invariant
            k <= n,
            read_one == |b: Seq<u8>, p: int| read_term(b, p),
            read_list(bytes@, at as int, k as nat, read_one) == Some(
                (terms.deep_view(), pos as int),
            ),
        decreases n - k,
    {
        match take_term(bytes, pos) {
            None => {
                proof {
                    lemma_read_list_stops(bytes@, at as int, (k + 1) as nat, n as nat, read_one);
                }
                return None;
            },
            Some((term, end)) => {
                let ghost before = terms.deep_view();
                terms.push(term);
                assert(terms.deep_view() =~= before.push(term@));
                pos = end;
            },
        }
        k += 1;
    }
    Some((terms, pos))
}

fn take_u64s(bytes: &[u8], at: usize, n: u64) -> (r: Option<(Vec<u64>, usize)>)
    ensures
        match r {
            Some((xs, end)) => read_list(
                bytes@,
                at as int,
                n as nat,
                |b: Seq<u8>, p: int| read_u64(b, p),
            ) == Some((xs@, end as int)),
            None => read_list(bytes@, at as int, n as nat, |b: Seq<u8>, p: int| read_u64(b, p))
                is None,
        },
{
    let ghost read_one = |b: Seq<u8>, p: int| read_u64(b, p);
    let mut xs: Vec<u64> = Vec::new();
    let mut pos = at;
    let mut k: u64 = 0;
    while k < n
        invariant
            k <= n,
            read_one == |b: Seq<u8>, p: int| read_u64(b, p),
            read_list(bytes@, at as int, k as nat, read_one) == Some((xs@, pos as int)),
        decreases n - k,
    {
        match take_u64(bytes, pos) {
            None => {
                proof {
                    lemma_read_list_stops(bytes@, at as int, (k + 1) as nat, n as nat, read_one);
                }
                return None;
            },
            Some((x, end)) => {
                xs.push(x);
                pos = end;
            },
        }
        k += 1;
    }
    Some((xs, pos))
}

fn take_entries(bytes: &[u8], at: usize, n: u64) -> (r: Option<(Vec<Entry>, usize)>)
    ensures
        match r {
            Some((entries, end)) => read_list(
                bytes@,
                at as int,
                n as nat,
                |b: Seq<u8>, p: int| read_entry(b, p),
            ) == Some((entries@, end as int)),
            None => read_list(bytes@, at as int, n as nat, |b: Seq<u8>, p: int| read_entry(b, p))
                is None,
        },
{
    let ghost read_one = |b: Seq<u8>, p: int| read_entry(b, p);
    let mut entries: Vec<Entry> = Vec::new();
    let mut pos = at;
    let mut k: u64 = 0;
    while k < n
        invariant
            k <= n,
            read_one == |b: Seq<u8>, p: int| read_entry(b, p),
            read_list(bytes@, at as int, k as nat, read_one) == Some((entries@, pos as int)),
        decreases n - k,
    {
        match take_entry(bytes, pos) {
            None => {
                proof {
                    lemma_read_list_stops(bytes@, at as int, (k + 1) as nat, n as nat, read_one);
                }
                return None;
            },
            Some((entry, end)) => {
                entries.push(entry);
                pos = end;
            },
        }
        k += 1;
    }
    Some((entries, pos))
}

fn take_row(bytes: &[u8], at: usize) -> (r: Option<(u64, Vec<Entry>, usize)>)
    ensures
        match r {
            Some((doc_len, entries, end)) => read_row(bytes@, at as int) == Some(
                (RowModel { doc_len, entries: entries@ }, end as int),
            ),
            None => read_row(bytes@, at as int) is None,
        },
{
    match take_u64(bytes, at) {
        None => None,
        Some((doc_len, mid)) => match take_u64(bytes, mid) {
            None => None,
            Some((n, start)) => match take_entries(bytes, start, n) {
                None => None,
                Some((entries, end)) => Some((doc_len, entries, end)),
            },
        },
    }
}

/// Reads an index back from its binary form.
///
/// The bytes are accepted when they follow the layout from the first byte
/// to the last and hold a consistent index; they are refused as malformed
/// when they do not follow the layout or bytes are left over, and as
/// inconsistent when the layout is followed but the parts contradict each
/// other.
pub fn deserialize(bytes: &Vec<u8>) -> (r: Result<TfidfIndex, DecodeError>)
    ensures
        match r {
            Ok(index) => decode_index(bytes@) == Some(index@),
            Err(DecodeError::Malformed) => read_index(bytes@) is None || read_index(
                bytes@,
            ).unwrap().1 != bytes@.len(),
            Err(DecodeError::Inconsistent) => read_index(bytes@) is Some && read_index(
                bytes@,
            ).unwrap().1 == bytes@.len() && !index_wf(read_index(bytes@).unwrap().0),
        },
{
    let raw = bytes.as_slice();
    let ghost read_r = |b: Seq<u8>, p: int| read_row(b, p);
    let (num_docs, at_width) = match take_u64(raw, 0) {
        Some(found) => found,
        None => { return Err(DecodeError::Malformed); },
    };
    let (n_terms, at_terms) = match take_u64(raw, at_width) {
        Some(found) => found,
        None => { return Err(DecodeError::Malformed); },
    };
    let (terms, at_freqs) = match take_terms(raw, at_terms, n_terms) {
        Some(found) => found,
        None => { return Err(DecodeError::Malformed); },
    };
    let (doc_freq, at_rows) = match take_u64s(raw, at_freqs, n_terms) {
        Some(found) => found,
        None => { return Err(DecodeError::Malformed); },
    };
    proof {
        lemma_read_list_len(raw@, at_terms as int, n_terms as nat, |b: Seq<u8>, p: int| read_term(b, p));
    }
    let mut rows: Vec<SparseRow> = Vec::new();
    let ghost mut models: Seq<RowModel> = Seq::empty();
    let mut sound = true;
    let mut pos = at_rows;
    let mut i: u64 = 0;
    while i < num_docs
        invariant
            i <= num_docs,
            raw@ == bytes@,
            read_r == |b: Seq<u8>, p: int| read_row(b, p),
            read_u64(raw@, 0) == Some((num_docs, at_width as int)),
            read_u64(raw@, at_width as int) == Some((n_terms, at_terms as int)),
            read_list(raw@, at_terms as int, n_terms as nat, |b: Seq<u8>, p: int| read_term(b, p))
                == Some((terms.deep_view(), at_freqs as int)),
            read_list(raw@, at_freqs as int, n_terms as nat, |b: Seq<u8>, p: int| read_u64(b, p))
                == Some((doc_freq@, at_rows as int)),
            read_list(raw@, at_rows as int, i as nat, read_r) == Some((models, pos as int)),
            models.len() == i,
            sound ==> row_models(rows@) == models,
            sound ==> forall|r: int|
                0 <= r < models.len() ==> row_wf(#[trigger] models[r]) && cols_below(
                    models[r].entries,
                    n_terms as int,
                ),
            !sound ==> exists|r: int|
                0 <= r < models.len() && !(row_wf(#[trigger] models[r]) && cols_below(
                    models[r].entries,
                    n_terms as int,
                )),
        decreases num_docs - i,
    {
        match take_row(raw, pos) {
            None => {
                proof {
                    lemma_read_list_stops(
                        raw@,
                        at_rows as int,
                        (i + 1) as nat,
                        num_docs as nat,
                        read_r,
                    );
                }
                return Err(DecodeError::Malformed);
            },
            Some((doc_len, entries, end)) => {
                let ghost read = RowModel { doc_len, entries: entries@ };
                let ghost before = models;
                let ghost held = rows@;
                proof {
                    models = models.push(read);
                }
                match SparseRow::from_parts(doc_len, entries, n_terms) {
                    Some(row) => {
                        if sound {
                            rows.push(row);
                            assert(row_models(rows@) =~= row_models(held).push(read));
                        } else {
                            let ghost bad = choose|r: int|
                                0 <= r < before.len() && !(row_wf(#[trigger] before[r])
                                    && cols_below(before[r].entries, n_terms as int));
                            assert(models[bad] == before[bad]);
                        }
                    },
                    None => {
                        sound = false;
                        assert(models[i as int] == read);
                    },
                }
                pos = end;
            },
        }
        i += 1;
    }
    if pos != raw.len() {
        return Err(DecodeError::Malformed);
    }
    let ghost m = IndexModel { terms: terms.deep_view(), doc_freq: doc_freq@, num_docs, rows: models };
    assert(read_index(bytes@) == Some((m, pos as int)));
    if !sound {
        proof {
            let bad = choose|r: int|
                0 <= r < models.len() && !(row_wf(#[trigger] models[r]) && cols_below(
                    models[r].entries,
                    n_terms as int,
                ));
            assert(m.rows[bad] == models[bad]);
            assert(m.terms.len() == n_terms);
        }
        return Err(DecodeError::Inconsistent);
    }
    let vocabulary = match Vocabulary::from_terms(terms) {
        Some(vocabulary) => vocabulary,
        None => { return Err(DecodeError::Inconsistent); },
    };
    match TfidfIndex::from_parts(vocabulary, doc_freq, num_docs, rows) {
        Some(index) => Ok(index),
        None => Err(DecodeError::Inconsistent),
    }
}

/// Where an index came from, and what is left to do with it.
pub struct Loaded {
    /// The index, read back or freshly built.
    pub index: TfidfIndex,
    /// The bytes to persist: present exactly when the index was built here.
    pub to_store: Option<Vec<u8>>,
}

/// Takes the index from the persisted bytes when there are any, and builds
/// it from the catalog otherwise.
///
/// Persisted bytes are trusted as they are: when present they are read and
/// nothing is rebuilt, and bytes that cannot be read fail the call rather
/// than fall back to a rebuild. Without persisted bytes the index is built
/// from `canonical_docs` and handed back with its binary form, to be stored.
pub fn load_or_build(
    cached: Option<&Vec<u8>>,
    normalizer: &Normalizer,
    canonical_docs: &Vec<String>,
) -> (r: Result<Loaded, DecodeError>)
    ensures
        match cached {
            Some(bytes) => match r {
                Ok(loaded) => decode_index(bytes@) == Some(loaded.index@) && loaded.to_store
                    is None,
                Err(DecodeError::Malformed) => read_index(bytes@) is None || read_index(
                    bytes@,
                ).unwrap().1 != bytes@.len(),
                Err(DecodeError::Inconsistent) => read_index(bytes@) is Some && read_index(
                    bytes@,
                ).unwrap().1 == bytes@.len() && !index_wf(read_index(bytes@).unwrap().0),
            },
            None => match r {
                Ok(loaded) => {
                    &&& is_index_of(loaded.index@, corpus_terms(canonical_docs.deep_view()))
                    &&& loaded.to_store matches Some(bytes) && bytes@ == encode_index(
                        loaded.index@,
                    ) && decode_index(bytes@) == Some(loaded.index@)
                },
                Err(_) => false,
            },
        },
{
    match cached {
        Some(bytes) => match deserialize(bytes) {
            Ok(index) => Ok(Loaded { index, to_store: None }),
            Err(e) => Err(e),
        },
        None => {
            let index = build_tfidf_index(normalizer, canonical_docs);
            let bytes = serialize(&index);
            Ok(Loaded { index, to_store: Some(bytes) })
        },
    }
}

} // verus!
