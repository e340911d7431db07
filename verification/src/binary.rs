//! The binary vector file format. A file is a header of three
//! little-endian `u32` words (magic number, format version, vector count)
//! followed by one record per vector: its dimension as a little-endian
//! `u32`, then each component as the little-endian bytes of its 64-bit
//! IEEE-754 bit pattern.

use vstd::prelude::*;
use vstd::bytes::*;
use vstd::slice::slice_subrange;

use crate::error::VecMathError;
use crate::text::{append_digits, render_digits};
use crate::vector::{validate, validation};

verus! {

/// The first word of every binary vector file.
pub const BINARY_MAGIC: u32 = 0x5645434D;

/// The only format version that is written and read.
pub const BINARY_VERSION: u32 = 1;

// ---------------------------------------------------------------------
// Encoding
// ---------------------------------------------------------------------

/// The bytes of the components `v`, eight little-endian bytes each.
pub open spec fn words_bytes(v: Seq<u64>) -> Seq<u8>
    decreases v.len(),
{
    if v.len() == 0 {
        Seq::empty()
    } else {
        spec_u64_to_le_bytes(v[0]) + words_bytes(v.drop_first())
    }
}

/// The record of one vector: its dimension, then its components.
pub open spec fn record_bytes(v: Seq<u64>) -> Seq<u8> {
    spec_u32_to_le_bytes(v.len() as u32) + words_bytes(v)
}

/// The records of the vectors `vs`, one after another.
pub open spec fn records_bytes(vs: Seq<Seq<u64>>) -> Seq<u8>
    decreases vs.len(),
{
    if vs.len() == 0 {
        Seq::empty()
    } else {
        record_bytes(vs[0]) + records_bytes(vs.drop_first())
    }
}

/// The header of a file that holds `count` vectors.
pub open spec fn header_bytes(count: u32) -> Seq<u8> {
    spec_u32_to_le_bytes(BINARY_MAGIC) + spec_u32_to_le_bytes(BINARY_VERSION)
        + spec_u32_to_le_bytes(count)
}

/// The whole file written for the vectors `vs`. The count and each
/// dimension are stored as `u32`, truncated when they do not fit.
pub open spec fn file_bytes(vs: Seq<Seq<u64>>) -> Seq<u8> {
    header_bytes(vs.len() as u32) + records_bytes(vs)
}

/// The component sequences of the vectors `vs`.
pub open spec fn views(vs: Seq<Vec<u64>>) -> Seq<Seq<u64>>
    decreases vs.len(),
{
    if vs.len() == 0 {
        Seq::empty()
    } else {
        seq![vs[0]@] + views(vs.drop_first())
    }
}

proof fn lemma_views_index(vs: Seq<Vec<u64>>)
    ensures
        views(vs).len() == vs.len(),
        forall|k: int| 0 <= k < vs.len() ==> #[trigger] views(vs)[k] == vs[k]@,
    decreases vs.len(),
{
    if vs.len() > 0 {
        lemma_views_index(vs.drop_first());
        assert forall|k: int| 0 <= k < vs.len() implies #[trigger] views(vs)[k] == vs[k]@ by {
            if k > 0 {
                assert(views(vs)[k] == views(vs.drop_first())[k - 1]);
            }
        }
    }
}

proof fn lemma_words_bytes_concat(a: Seq<u64>, b: Seq<u64>)
    ensures
        words_bytes(a + b) == words_bytes(a) + words_bytes(b),
    decreases a.len(),
{
    if a.len() == 0 {
        assert(a + b =~= b);
        assert(words_bytes(a) + words_bytes(b) =~= words_bytes(b));
    } else {
        lemma_words_bytes_concat(a.drop_first(), b);
        assert((a + b).drop_first() =~= a.drop_first() + b);
        assert(words_bytes(a + b) =~= words_bytes(a) + words_bytes(b));
    }
}

proof fn lemma_records_bytes_concat(a: Seq<Seq<u64>>, b: Seq<Seq<u64>>)
    ensures
        records_bytes(a + b) == records_bytes(a) + records_bytes(b),
    decreases a.len(),
{
    if a.len() == 0 {
        assert(a + b =~= b);
        assert(records_bytes(a) + records_bytes(b) =~= records_bytes(b));
    } else {
        lemma_records_bytes_concat(a.drop_first(), b);
        assert((a + b).drop_first() =~= a.drop_first() + b);
        assert(records_bytes(a + b) =~= records_bytes(a) + records_bytes(b));
    }
}

proof fn lemma_words_bytes_push(v: Seq<u64>, k: int)
    requires
        0 <= k < v.len(),
    ensures
        words_bytes(v.take(k + 1)) == words_bytes(v.take(k)) + spec_u64_to_le_bytes(v[k]),
{
    assert(v.take(k + 1) =~= v.take(k) + seq![v[k]]);
    lemma_words_bytes_concat(v.take(k), seq![v[k]]);
    let one = seq![v[k]];
    assert(one.drop_first() =~= Seq::<u64>::empty());
    assert(words_bytes(one) == spec_u64_to_le_bytes(one[0]) + words_bytes(one.drop_first()));
    assert(words_bytes(one) =~= spec_u64_to_le_bytes(v[k]));
}

proof fn lemma_records_bytes_push(vs: Seq<Seq<u64>>, k: int)
    requires
        0 <= k < vs.len(),
    ensures
        records_bytes(vs.take(k + 1)) == records_bytes(vs.take(k)) + record_bytes(vs[k]),
{
    assert(vs.take(k + 1) =~= vs.take(k) + seq![vs[k]]);
    lemma_records_bytes_concat(vs.take(k), seq![vs[k]]);
    let one = seq![vs[k]];
    assert(one.drop_first() =~= Seq::<Seq<u64>>::empty());
    assert(records_bytes(one) == record_bytes(one[0]) + records_bytes(one.drop_first()));
    assert(records_bytes(one) =~= record_bytes(vs[k]));
}

/// Appends the record of one vector to `out`.
fn encode_record(out: &mut Vec<u8>, v: &Vec<u64>)
    ensures
        final(out)@ == old(out)@ + record_bytes(v@),
{
    let mut dim = u32_to_le_bytes(v.len() as u32);
    out.append(&mut dim);
    let ghost start = out@;
    let mut k: usize = 0;
    while k < v.len()
        invariant
            k <= v@.len(),
            out@ == start + words_bytes(v@.take(k as int)),
        decreases v.len() - k,
    {
        let mut w = u64_to_le_bytes(v[k]);
        out.append(&mut w);
        proof {
            lemma_words_bytes_push(v@, k as int);
        }
        k += 1;
    }
    assert(v@.take(v@.len() as int) =~= v@);
}

/// The bytes of a binary file holding `vectors`, each given by the bit
/// patterns of its components.
pub fn encode_binary(vectors: &[Vec<u64>]) -> (out: Vec<u8>)
    ensures
        out@ == file_bytes(views(vectors@)),
{
    proof {
        lemma_views_index(vectors@);
    }
    let mut out = u32_to_le_bytes(BINARY_MAGIC);
    let mut version = u32_to_le_bytes(BINARY_VERSION);
    out.append(&mut version);
    let mut count = u32_to_le_bytes(vectors.len() as u32);
    out.append(&mut count);
    let ghost header = out@;
    let ghost all = views(vectors@);
    let mut i: usize = 0;
    while i < vectors.len()
        invariant
            i <= vectors@.len(),
            all == views(vectors@),
            all.len() == vectors@.len(),
            forall|k: int| 0 <= k < vectors@.len() ==> #[trigger] all[k] == vectors@[k]@,
            out@ == header + records_bytes(all.take(i as int)),
        decreases vectors.len() - i,
    {
        encode_record(&mut out, &vectors[i]);
        proof {
            lemma_records_bytes_push(all, i as int);
        }
        i += 1;
    }
    assert(all.take(all.len() as int) =~= all);
    out
}

// ---------------------------------------------------------------------
// Decoding
// ---------------------------------------------------------------------

/// Why reading a binary file stopped.
#[derive(Debug, Clone, Copy, PartialEq, Eq, Structural)]
pub enum BinaryFault {
    /// Fewer than the twelve bytes of the header.
    TooShort,
    /// The first word is not `BINARY_MAGIC`; it holds the word found.
    BadMagic(u32),
    /// The second word is not `BINARY_VERSION`; it holds the word found.
    BadVersion(u32),
    /// The file ends where a record's dimension should stand.
    EofAtDim,
    /// The file ends inside a record's components.
    EofAtData,
}

/// The little-endian `u32` at byte offset `off`.
pub open spec fn read_u32_at(buf: Seq<u8>, off: int) -> u32 {
    spec_u32_from_le_bytes(buf.subrange(off, off + 4))
}

/// The little-endian `u64` at byte offset `off`.
pub open spec fn read_u64_at(buf: Seq<u8>, off: int) -> u64 {
    spec_u64_from_le_bytes(buf.subrange(off, off + 8))
}

/// The `dim` consecutive little-endian `u64` words from byte offset `off`.
pub open spec fn read_words(buf: Seq<u8>, off: int, dim: nat) -> Seq<u64> {
    Seq::new(dim, |k: int| read_u64_at(buf, off + 8 * k))
}

/// Reads up to `remaining` records from byte offset `off`: the records
/// read, and the fault that stopped the reading before all were read.
pub open spec fn scan_records(buf: Seq<u8>, off: int, remaining: nat) -> (
    Seq<Seq<u64>>,
    Option<BinaryFault>,
)
    decreases remaining,
{
    if remaining == 0 {
        (Seq::empty(), None)
    } else if off + 4 > buf.len() {
        (Seq::empty(), Some(BinaryFault::EofAtDim))
    } else {
        let dim = read_u32_at(buf, off) as nat;
        let start = off + 4;
        if start + 8 * dim > buf.len() {
            (Seq::empty(), Some(BinaryFault::EofAtData))
        } else {
            let rest = scan_records(buf, start + 8 * dim, (remaining - 1) as nat);
            (seq![read_words(buf, start, dim)] + rest.0, rest.1)
        }
    }
}

/// The fault in the header of `buf`, if any.
pub open spec fn header_fault(buf: Seq<u8>) -> Option<BinaryFault> {
    if buf.len() < 12 {
        Some(BinaryFault::TooShort)
    } else if read_u32_at(buf, 0) != BINARY_MAGIC {
        Some(BinaryFault::BadMagic(read_u32_at(buf, 0)))
    } else if read_u32_at(buf, 4) != BINARY_VERSION {
        Some(BinaryFault::BadVersion(read_u32_at(buf, 4)))
    } else {
        None
    }
}

/// The records of the file `buf`, in file order, and the fault, if any,
/// that ended the reading early.
pub open spec fn scan_file(buf: Seq<u8>) -> (Seq<Seq<u64>>, Option<BinaryFault>) {
    match header_fault(buf) {
        Some(f) => (Seq::empty(), Some(f)),
        None => scan_records(buf, 12, read_u32_at(buf, 8) as nat),
    }
}

/// The records of the file `buf` and the fault that ended the reading, as
/// `scan_file` gives them.
pub fn scan_binary(buf: &[u8]) -> (res: (Vec<Vec<u64>>, Option<BinaryFault>))
    ensures
        views(res.0@) == scan_file(buf@).0,
        res.1 == scan_file(buf@).1,
{
    let mut records: Vec<Vec<u64>> = Vec::new();
    proof {
        assert(views(records@) =~= Seq::<Seq<u64>>::empty());
    }
    if buf.len() < 12 {
        return (records, Some(BinaryFault::TooShort));
    }
    let magic = u32_from_le_bytes(slice_subrange(buf, 0, 4));
    if magic != BINARY_MAGIC {
        return (records, Some(BinaryFault::BadMagic(magic)));
    }
    let version = u32_from_le_bytes(slice_subrange(buf, 4, 8));
    if version != BINARY_VERSION {
        return (records, Some(BinaryFault::BadVersion(version)));
    }
    let count = u32_from_le_bytes(slice_subrange(buf, 8, 12));
    let ghost whole = scan_file(buf@);
    let mut offset: usize = 12;
    let mut read: u32 = 0;
    while read < count
        invariant
            12 <= offset <= buf@.len(),
            read <= count,
            count == read_u32_at(buf@, 8),
            whole == scan_file(buf@),
            whole == scan_records(buf@, 12, count as nat),
            views(records@) + scan_records(buf@, offset as int, (count - read) as nat).0
                == whole.0,
            scan_records(buf@, offset as int, (count - read) as nat).1 == whole.1,
        decreases count - read,
    {
        if buf.len() - offset < 4 {
            proof {
                assert(views(records@) =~= whole.0);
            }
            return (records, Some(BinaryFault::EofAtDim));
        }
        let dim = u32_from_le_bytes(slice_subrange(buf, offset, offset + 4));
        let start = offset + 4;
        if (dim as u64) * 8 > (buf.len() - start) as u64 {
            proof {
                assert(views(records@) =~= whole.0);
            }
            return (records, Some(BinaryFault::EofAtData));
        }
        let ghost rest = scan_records(
            buf@,
            start + 8 * dim,
            (count - read - 1) as nat,
        );
        let n = dim as usize;
        assert(start + 8 * n <= buf@.len());
        let mut words: Vec<u64> = Vec::new();
        let mut k: usize = 0;
        while k < n
            invariant
                k <= n,
                n == dim,
                start + 8 * n <= buf@.len(),
                buf@.len() <= usize::MAX,
                words@ == read_words(buf@, start as int, k as nat),
            decreases n - k,
        {
            let p = start + 8 * k;
            let w = u64_from_le_bytes(slice_subrange(buf, p, p + 8));
            words.push(w);
            proof {
                assert(words@ =~= read_words(buf@, start as int, (k + 1) as nat));
            }
            k += 1;
        }
        proof {
            let before = views(records@);
            lemma_views_index(records@);
            lemma_views_index(records@.push(words));
            assert(views(records@.push(words)) =~= before.push(words@));
            assert(scan_records(buf@, offset as int, (count - read) as nat).0 == seq![
                read_words(buf@, start as int, dim as nat),
            ] + rest.0);
            assert(before.push(words@) + rest.0 =~= before + (seq![words@] + rest.0));
        }
        records.push(words);
        offset = start + 8 * n;
        read += 1;
    }
    proof {
        assert(views(records@) =~= whole.0);
    }
    (records, None)
}

// ---------------------------------------------------------------------
// Reading back what was written
// ---------------------------------------------------------------------

/// `x` stands in `buf` from byte offset `off`.
pub open spec fn holds_at(buf: Seq<u8>, off: int, x: Seq<u8>) -> bool {
    &&& 0 <= off
    &&& off + x.len() <= buf.len()
    &&& buf.subrange(off, off + x.len()) == x
}

proof fn lemma_holds_at_split(buf: Seq<u8>, off: int, a: Seq<u8>, b: Seq<u8>)
    requires
        holds_at(buf, off, a + b),
    ensures
        holds_at(buf, off, a),
        holds_at(buf, off + a.len(), b),
{
    assert(buf.subrange(off, off + a.len()) =~= (a + b).subrange(0, a.len() as int));
    assert((a + b).subrange(0, a.len() as int) =~= a);
    assert(buf.subrange(off + a.len(), off + a.len() + b.len()) =~= (a + b).subrange(
        a.len() as int,
        (a + b).len() as int,
    ));
    assert((a + b).subrange(a.len() as int, (a + b).len() as int) =~= b);
}

proof fn lemma_read_u32_written(buf: Seq<u8>, off: int, x: u32)
    requires
        holds_at(buf, off, spec_u32_to_le_bytes(x)),
    ensures
        off + 4 <= buf.len(),
        read_u32_at(buf, off) == x,
{
    lemma_auto_spec_u32_to_from_le_bytes();
}

proof fn lemma_read_u64_written(buf: Seq<u8>, off: int, x: u64)
    requires
        holds_at(buf, off, spec_u64_to_le_bytes(x)),
    ensures
        off + 8 <= buf.len(),
        read_u64_at(buf, off) == x,
{
    lemma_auto_spec_u64_to_from_le_bytes();
}

proof fn lemma_read_words_written(buf: Seq<u8>, off: int, v: Seq<u64>)
    requires
        holds_at(buf, off, words_bytes(v)),
    ensures
        words_bytes(v).len() == 8 * v.len(),
        read_words(buf, off, v.len()) == v,
    decreases v.len(),
{
    lemma_auto_spec_u64_to_from_le_bytes();
    if v.len() > 0 {
        let rest = v.drop_first();
        lemma_holds_at_split(buf, off, spec_u64_to_le_bytes(v[0]), words_bytes(rest));
        lemma_read_u64_written(buf, off, v[0]);
        lemma_read_words_written(buf, off + 8, rest);
        assert forall|k: int| 0 <= k < v.len() implies #[trigger] read_words(
            buf,
            off,
            v.len(),
        )[k] == v[k] by {
            if k > 0 {
                assert(off + 8 * k == (off + 8) + 8 * (k - 1));
                assert(read_words(buf, off + 8, rest.len())[k - 1] == rest[k - 1]);
            }
        }
        assert(read_words(buf, off, v.len()) =~= v);
    } else {
        assert(read_words(buf, off, v.len()) =~= v);
    }
}

/// Every vector of `vs` has a dimension that a record can store.
pub open spec fn dimensions_fit(vs: Seq<Seq<u64>>) -> bool {
    forall|k: int| 0 <= k < vs.len() ==> #[trigger] vs[k].len() <= u32::MAX
}

proof fn lemma_scan_records_written(buf: Seq<u8>, off: int, vs: Seq<Seq<u64>>)
    requires
        holds_at(buf, off, records_bytes(vs)),
        dimensions_fit(vs),
    ensures
        scan_records(buf, off, vs.len()) == (vs, None::<BinaryFault>),
    decreases vs.len(),
{
    if vs.len() > 0 {
        let v = vs[0];
        let rest = vs.drop_first();
        lemma_holds_at_split(buf, off, record_bytes(v), records_bytes(rest));
        lemma_holds_at_split(buf, off, spec_u32_to_le_bytes(v.len() as u32), words_bytes(v));
        lemma_auto_spec_u32_to_from_le_bytes();
        lemma_read_u32_written(buf, off, v.len() as u32);
        lemma_read_words_written(buf, off + 4, v);
        assert(dimensions_fit(rest)) by {
            assert forall|k: int| 0 <= k < rest.len() implies #[trigger] rest[k].len()
                <= u32::MAX by {
                assert(rest[k] == vs[k + 1]);
            }
        }
        lemma_scan_records_written(buf, off + 4 + 8 * v.len(), rest);
        assert(record_bytes(v).len() == 4 + 8 * v.len());
        assert(seq![v] + rest =~= vs);
    } else {
        assert(vs =~= Seq::<Seq<u64>>::empty());
    }
}

/// Law: reading back a file written for `vs` gives every vector of `vs`,
/// in order, and no fault, provided the count and every dimension fit in
/// the `u32` words that store them.
pub proof fn lemma_binary_round_trip(vs: Seq<Seq<u64>>)
    requires
        vs.len() <= u32::MAX,
        dimensions_fit(vs),
    ensures
        scan_file(file_bytes(vs)) == (vs, None::<BinaryFault>),
{
    let buf = file_bytes(vs);
    let magic = spec_u32_to_le_bytes(BINARY_MAGIC);
    let version = spec_u32_to_le_bytes(BINARY_VERSION);
    let count = spec_u32_to_le_bytes(vs.len() as u32);
    lemma_auto_spec_u32_to_from_le_bytes();
    assert(holds_at(buf, 0, buf)) by {
        assert(buf.subrange(0, buf.len() as int) =~= buf);
    }
    assert(buf =~= magic + (version + (count + records_bytes(vs))));
    lemma_holds_at_split(buf, 0, magic, version + (count + records_bytes(vs)));
    lemma_holds_at_split(buf, 4, version, count + records_bytes(vs));
    lemma_holds_at_split(buf, 8, count, records_bytes(vs));
    lemma_read_u32_written(buf, 0, BINARY_MAGIC);
    lemma_read_u32_written(buf, 4, BINARY_VERSION);
    lemma_read_u32_written(buf, 8, vs.len() as u32);
    lemma_scan_records_written(buf, 12, vs);
}

/// The byte offset at which record `r` starts, when the records `recs`
/// are laid out one after another from byte offset `first`: each record
/// takes four bytes for its dimension and eight for each component.
pub open spec fn record_offset(recs: Seq<Seq<u64>>, first: int, r: int) -> int
    decreases r,
{
    if r <= 0 {
        first
    } else {
        record_offset(recs, first, r - 1) + 4 + 8 * recs[r - 1].len()
    }
}

/// The record `rec` stands in `buf` at byte offset `off`, as the file
/// format lays it out: its dimension as the little-endian `u32` at `off`,
/// and its component `k` as the little-endian `u64` at `off + 4 + 8 * k`.
pub open spec fn record_at(buf: Seq<u8>, off: int, rec: Seq<u64>) -> bool {
    &&& 0 <= off
    &&& off + 4 + 8 * rec.len() <= buf.len()
    &&& rec.len() == spec_u32_from_le_bytes(buf.subrange(off, off + 4)) as nat
    &&& forall|k: int|
        0 <= k < rec.len() ==> #[trigger] rec[k] == spec_u64_from_le_bytes(
            buf.subrange(off + 4 + 8 * k, off + 12 + 8 * k),
        )
}

proof fn lemma_record_offset_shift(w: Seq<u64>, rest: Seq<Seq<u64>>, first: int, r: int)
    requires
        1 <= r <= rest.len() + 1,
    ensures
        record_offset(seq![w] + rest, first, r) == record_offset(rest, first + 4 + 8 * w.len(), r
            - 1),
    decreases r,
{
    let recs = seq![w] + rest;
    if r == 1 {
        assert(recs[0] == w);
        assert(record_offset(recs, first, 0) == first);
        assert(record_offset(rest, first + 4 + 8 * w.len(), 0) == first + 4 + 8 * w.len());
    } else {
        lemma_record_offset_shift(w, rest, first, r - 1);
        assert(recs[r - 1] == rest[r - 2]);
    }
}

proof fn lemma_scan_records_layout(buf: Seq<u8>, off: int, remaining: nat)
    requires
        0 <= off,
    ensures
        forall|r: int|
            0 <= r < scan_records(buf, off, remaining).0.len() ==> record_at(
                buf,
                record_offset(scan_records(buf, off, remaining).0, off, r),
                #[trigger] scan_records(buf, off, remaining).0[r],
            ),
    decreases remaining,
{
    if remaining > 0 && off + 4 <= buf.len() {
        let dim = read_u32_at(buf, off) as nat;
        let start = off + 4;
        if start + 8 * dim <= buf.len() {
            let w = read_words(buf, start, dim);
            let rest = scan_records(buf, start + 8 * dim, (remaining - 1) as nat);
            let recs = seq![w] + rest.0;
            lemma_scan_records_layout(buf, start + 8 * dim, (remaining - 1) as nat);
            assert(scan_records(buf, off, remaining).0 == recs);
            assert forall|r: int| 0 <= r < recs.len() implies record_at(
                buf,
                record_offset(recs, off, r),
                #[trigger] recs[r],
            ) by {
                if r == 0 {
                    assert(recs[0] == w);
                    assert forall|k: int| 0 <= k < w.len() implies #[trigger] w[k]
                        == spec_u64_from_le_bytes(buf.subrange(off + 4 + 8 * k, off + 12 + 8 * k)) by {
                        assert(off + 12 + 8 * k == start + 8 * k + 8);
                    }
                } else {
                    lemma_record_offset_shift(w, rest.0, off, r);
                    assert(recs[r] == rest.0[r - 1]);
                }
            }
        }
    }
}

/// Law: the records read from any bytes are laid out as the file format
/// says. Record `r` starts where the records before it end (from byte 12,
/// after the header); its dimension is the little-endian `u32` there, and
/// its component `k` is the little-endian `u64` at 4 + 8k bytes further.
pub proof fn lemma_decoded_layout(buf: Seq<u8>)
    ensures
        forall|r: int|
            0 <= r < scan_file(buf).0.len() ==> record_at(
                buf,
                record_offset(scan_file(buf).0, 12, r),
                #[trigger] scan_file(buf).0[r],
            ),
{
    if header_fault(buf) is None {
        lemma_scan_records_layout(buf, 12, read_u32_at(buf, 8) as nat);
    }
}

/// Law: a file written for `vs` (count and dimensions fitting in `u32`)
/// starts with the magic number, the version and the count, each as a
/// little-endian `u32`; record `r` starts where the records before it
/// end, with its dimension as a little-endian `u32`, and holds component
/// `k` of `vs[r]` as the eight little-endian bytes at 4 + 8k bytes
/// further.
pub proof fn lemma_encoded_layout(vs: Seq<Seq<u64>>)
    requires
        vs.len() <= u32::MAX,
        dimensions_fit(vs),
    ensures
        file_bytes(vs).subrange(0, 4) == spec_u32_to_le_bytes(BINARY_MAGIC),
        file_bytes(vs).subrange(4, 8) == spec_u32_to_le_bytes(BINARY_VERSION),
        file_bytes(vs).subrange(8, 12) == spec_u32_to_le_bytes(vs.len() as u32),
        forall|r: int|
            0 <= r < vs.len() ==> {
                let o = record_offset(vs, 12, r);
                &&& o + 4 + 8 * vs[r].len() <= file_bytes(vs).len()
                &&& file_bytes(vs).subrange(o, o + 4) == spec_u32_to_le_bytes(
                    #[trigger] vs[r].len() as u32,
                )
            },
        forall|r: int, k: int|
            0 <= r < vs.len() && 0 <= k < vs[r].len() ==> {
                let o = record_offset(vs, 12, r);
                file_bytes(vs).subrange(o + 4 + 8 * k, o + 12 + 8 * k) == spec_u64_to_le_bytes(
                    #[trigger] vs[r][k],
                )
            },
{
    let buf = file_bytes(vs);
    lemma_binary_round_trip(vs);
    lemma_decoded_layout(buf);
    lemma_auto_spec_u32_to_from_le_bytes();
    lemma_auto_spec_u64_to_from_le_bytes();
    let magic = spec_u32_to_le_bytes(BINARY_MAGIC);
    let version = spec_u32_to_le_bytes(BINARY_VERSION);
    let count = spec_u32_to_le_bytes(vs.len() as u32);
    assert(holds_at(buf, 0, buf)) by {
        assert(buf.subrange(0, buf.len() as int) =~= buf);
    }
    assert(buf =~= magic + (version + (count + records_bytes(vs))));
    lemma_holds_at_split(buf, 0, magic, version + (count + records_bytes(vs)));
    lemma_holds_at_split(buf, 4, version, count + records_bytes(vs));
    lemma_holds_at_split(buf, 8, count, records_bytes(vs));
    assert forall|r: int| 0 <= r < vs.len() implies {
        let o = record_offset(vs, 12, r);
        &&& o + 4 + 8 * vs[r].len() <= buf.len()
        &&& buf.subrange(o, o + 4) == spec_u32_to_le_bytes(#[trigger] vs[r].len() as u32)
    } by {
        assert(scan_file(buf).0[r] == vs[r]);
        let o = record_offset(vs, 12, r);
        let sub = buf.subrange(o, o + 4);
        assert(vs[r].len() <= u32::MAX);
        assert(spec_u32_to_le_bytes(spec_u32_from_le_bytes(sub)) == sub);
    }
    assert forall|r: int, k: int| 0 <= r < vs.len() && 0 <= k < vs[r].len() implies {
        let o = record_offset(vs, 12, r);
        buf.subrange(o + 4 + 8 * k, o + 12 + 8 * k) == spec_u64_to_le_bytes(#[trigger] vs[r][k])
    } by {
        assert(scan_file(buf).0[r] == vs[r]);
        let o = record_offset(vs, 12, r);
        let sub = buf.subrange(o + 4 + 8 * k, o + 12 + 8 * k);
        assert(vs[r][k] == spec_u64_from_le_bytes(sub));
        assert(spec_u64_to_le_bytes(spec_u64_from_le_bytes(sub)) == sub);
    }
}

proof fn lemma_scan_records_stop(buf: Seq<u8>, off: int, remaining: nat)
    ensures
        ({
            let (recs, f) = scan_records(buf, off, remaining);
            let end = record_offset(recs, off, recs.len() as int);
            &&& f is None || f == Some(BinaryFault::EofAtDim) || f == Some(BinaryFault::EofAtData)
            &&& f is None ==> recs.len() == remaining
            &&& f == Some(BinaryFault::EofAtDim) ==> recs.len() < remaining && end + 4 > buf.len()
            &&& f == Some(BinaryFault::EofAtData) ==> recs.len() < remaining && end + 4
                <= buf.len() && end + 4 + 8 * spec_u32_from_le_bytes(buf.subrange(end, end + 4))
                > buf.len()
        }),
    decreases remaining,
{
    if remaining > 0 && off + 4 <= buf.len() {
        let dim = read_u32_at(buf, off) as nat;
        let start = off + 4;
        if start + 8 * dim <= buf.len() {
            let w = read_words(buf, start, dim);
            let rest = scan_records(buf, start + 8 * dim, (remaining - 1) as nat);
            lemma_scan_records_stop(buf, start + 8 * dim, (remaining - 1) as nat);
            let recs = seq![w] + rest.0;
            assert(scan_records(buf, off, remaining).0 == recs);
            lemma_record_offset_shift(w, rest.0, off, recs.len() as int);
        }
    }
}

/// Law: how reading a file ends. A file shorter than the 12 header bytes
/// is refused as too short; otherwise a first word other than 0x5645434D
/// is refused with that word, then a second word other than 1 with that
/// word, reading no record. Past the header, the third word counts the
/// records: reading stops without a fault after that many, or stops early
/// where the next record's dimension does not fit in the bytes left, or
/// where its components do not.
pub proof fn lemma_scan_stops(buf: Seq<u8>)
    ensures
        ({
            let (recs, f) = scan_file(buf);
            let magic = spec_u32_from_le_bytes(buf.subrange(0, 4));
            let version = spec_u32_from_le_bytes(buf.subrange(4, 8));
            let count = spec_u32_from_le_bytes(buf.subrange(8, 12));
            let end = record_offset(recs, 12, recs.len() as int);
            &&& buf.len() < 12 <==> f == Some(BinaryFault::TooShort)
            &&& buf.len() >= 12 && magic != 0x5645434D ==> f == Some(BinaryFault::BadMagic(magic))
            &&& buf.len() >= 12 && magic == 0x5645434D && version != 1 ==> f == Some(
                BinaryFault::BadVersion(version),
            )
            &&& (f matches Some(x) && (x is TooShort || x is BadMagic || x is BadVersion)) ==> recs.len()
                == 0
            &&& buf.len() >= 12 && magic == 0x5645434D && version == 1 ==> {
                &&& f is None || f == Some(BinaryFault::EofAtDim) || f == Some(
                    BinaryFault::EofAtData,
                )
                &&& f is None ==> recs.len() == count
                &&& f == Some(BinaryFault::EofAtDim) ==> recs.len() < count && end + 4 > buf.len()
                &&& f == Some(BinaryFault::EofAtData) ==> recs.len() < count && end + 4
                    <= buf.len() && end + 4 + 8 * spec_u32_from_le_bytes(
                    buf.subrange(end, end + 4),
                ) > buf.len()
            }
        }),
{
    if header_fault(buf) is None {
        lemma_scan_records_stop(buf, 12, read_u32_at(buf, 8) as nat);
    }
}

/// The result of reading one record: its components if they form a valid
/// vector, otherwise the reason it is refused.
pub open spec fn checked_record(v: Seq<u64>) -> Result<Seq<u64>, VecMathError> {
    match validation(v) {
        Ok(_) => Ok(v),
        Err(e) => Err(e),
    }
}

/// The components of a record result, by view.
pub open spec fn record_view(r: Result<Vec<u64>, VecMathError>) -> Result<Seq<u64>, VecMathError> {
    match r {
        Ok(v) => Ok(v@),
        Err(e) => Err(e),
    }
}

/// `x` in upper-case hexadecimal, as `{:X}` renders it.
pub open spec fn upper_hex(x: u32) -> Seq<char> {
    render_digits(x as nat, 16)
}

/// `x` in decimal, as `{}` renders it.
pub open spec fn decimal(x: u32) -> Seq<char> {
    render_digits(x as nat, 10)
}

/// The message that reports a fault.
pub open spec fn fault_message(f: BinaryFault) -> Seq<char> {
    match f {
        BinaryFault::TooShort => "binary file too short"@,
        BinaryFault::BadMagic(m) => "invalid binary magic: expected 0x5645434D, got 0x"@ + upper_hex(
            m,
        ),
        BinaryFault::BadVersion(v) => "unsupported binary version: expected 1, got "@ + decimal(v),
        BinaryFault::EofAtDim => "unexpected EOF at dim"@,
        BinaryFault::EofAtData => "unexpected EOF at vector data"@,
    }
}

/// The error that reports a fault.
pub fn fault_error(f: BinaryFault) -> (e: VecMathError)
    ensures
        e matches VecMathError::ParseError(m) && m@ == fault_message(f),
{
    match f {
        BinaryFault::TooShort => VecMathError::ParseError(String::from_str("binary file too short")),
        BinaryFault::BadMagic(m) => {
            let mut s = String::from_str("invalid binary magic: expected 0x5645434D, got 0x");
            append_digits(&mut s, m, 16);
            VecMathError::ParseError(s)
        },
        BinaryFault::BadVersion(v) => {
            let mut s = String::from_str("unsupported binary version: expected 1, got ");
            append_digits(&mut s, v, 10);
            VecMathError::ParseError(s)
        },
        BinaryFault::EofAtDim => VecMathError::ParseError(String::from_str("unexpected EOF at dim")),
        BinaryFault::EofAtData => VecMathError::ParseError(
            String::from_str("unexpected EOF at vector data"),
        ),
    }
}

/// What reading a binary file gives: one entry per record read, in file
/// order, holding the vector or the reason it is refused; and the error
/// that stopped the reading, if any.
pub struct DecodedVectors {
    pub records: Vec<Result<Vec<u64>, VecMathError>>,
    pub error: Option<VecMathError>,
}

/// Reads the bytes of a binary vector file. Each record is validated as a
/// vector (non-empty, no NaN, no infinity); a refused record is reported
/// in its place, and reading goes on.
pub fn decode_binary(buf: &[u8]) -> (res: DecodedVectors)
    ensures
        res.records@.len() == scan_file(buf@).0.len(),
        forall|k: int|
            0 <= k < res.records@.len() ==> record_view(#[trigger] res.records@[k])
                == checked_record(scan_file(buf@).0[k]),
        scan_file(buf@).1 is None ==> res.error is None,
        scan_file(buf@).1 matches Some(f) ==> (res.error matches Some(
            VecMathError::ParseError(m),
        ) && m@ == fault_message(f)),
{
    let (raw, fault) = scan_binary(buf);
    proof {
        lemma_views_index(raw@);
    }
    let mut records: Vec<Result<Vec<u64>, VecMathError>> = Vec::new();
    let mut i: usize = 0;
    while i < raw.len()
        invariant
            i <= raw@.len(),
            views(raw@) == scan_file(buf@).0,
            views(raw@).len() == raw@.len(),
            forall|k: int| 0 <= k < raw@.len() ==> #[trigger] views(raw@)[k] == raw@[k]@,
            records@.len() == i,
            forall|k: int|
                0 <= k < i ==> record_view(#[trigger] records@[k]) == checked_record(
                    scan_file(buf@).0[k],
                ),
        decreases raw.len() - i,
    {
        let v = &raw[i];
        match validate(v.as_slice()) {
            Ok(()) => records.push(Ok(v.clone())),
            Err(e) => records.push(Err(e)),
        }
        i += 1;
    }
    let error = match fault {
        Some(f) => Some(fault_error(f)),
        None => None,
    };
    DecodedVectors { records, error }
}

} // verus!
