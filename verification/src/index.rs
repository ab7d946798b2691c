//! The staging index: a binary container of file records. The file
//! starts with the magic `DIRC`, a version and a record count, then each
//! record padded with NULs so that its total length is a multiple of
//! eight and strictly longer than the bare record.

use crate::bytes_codec::{
    be32_bytes, get_be32, lemma_be16_round_trip, lemma_be32_round_trip, lemma_lex_le_total,
    lemma_lex_le_transitive, lex_le, push_be32, read_be32,
};
use crate::commit::{has_prefix, starts_with};
use crate::error::Error;
use crate::metadata::{filemeta_bytes, filemeta_wf, parse_filemeta, FileMeta, FileMetaV};
use vstd::multiset::Multiset;
use vstd::prelude::*;
use vstd::slice::slice_subrange;

verus! {

broadcast use vstd::seq_lib::group_to_multiset_ensures;

/// The mathematical model of an index.
#[verifier::ext_equal]
pub ghost struct IndexV {
    pub version: u32,
    pub filemetas: Seq<FileMetaV>,
}

/// The staging area: an ordered list of file records.
#[derive(Debug, Clone, PartialEq)]
pub struct Index {
    pub version: u32,
    pub filemetas: Vec<FileMeta>,
}

/// The models of a list of records.
pub open spec fn meta_views(s: Seq<FileMeta>) -> Seq<FileMetaV> {
    s.map_values(|m: FileMeta| m@)
}

impl View for Index {
    type V = IndexV;

    open spec fn view(&self) -> IndexV {
        IndexV { version: self.version, filemetas: meta_views(self.filemetas@) }
    }
}

// ---------------------------------------------------------------------------
// Serialization
// ---------------------------------------------------------------------------

pub open spec fn index_magic() -> Seq<u8> {
    seq![0x44u8, 0x49u8, 0x52u8, 0x43u8]
}

/// The NUL padding after a record whose name has `n` bytes: the count
/// that brings `62 + n` to the next multiple of eight, at least one.
pub open spec fn pad_of(n: nat) -> nat {
    (8 - ((62 + n) % 8)) as nat
}

pub open spec fn zero_bytes(n: nat) -> Seq<u8> {
    Seq::new(n, |i: int| 0x00u8)
}

/// One record with its padding.
pub open spec fn record_bytes(m: FileMetaV) -> Seq<u8> {
    filemeta_bytes(m) + zero_bytes(pad_of(m.filename_size as nat))
}

/// All records, concatenated.
pub open spec fn index_records(ms: Seq<FileMetaV>) -> Seq<u8>
    decreases ms.len(),
{
    if ms.len() == 0 {
        Seq::empty()
    } else {
        record_bytes(ms[0]) + index_records(ms.drop_first())
    }
}

/// The whole index file: magic, version, record count, records.
pub open spec fn index_bytes(v: IndexV) -> Seq<u8> {
    index_magic() + be32_bytes(v.version) + be32_bytes(v.filemetas.len() as u32) + index_records(
        v.filemetas,
    )
}

/// What parsing `count` records yields; each record, padding included,
/// must be whole.
pub open spec fn parse_records(s: Seq<u8>, count: nat) -> Option<Seq<FileMetaV>>
    decreases count,
{
    if count == 0 {
        Some(Seq::empty())
    } else {
        match parse_filemeta(s) {
            Some(m) => {
                let rl = 62 + m.filename_size + pad_of(m.filename_size as nat);
                if s.len() < rl {
                    None
                } else {
                    match parse_records(s.skip(rl as int), (count - 1) as nat) {
                        Some(rest) => Some(seq![m] + rest),
                        None => None,
                    }
                }
            },
            None => None,
        }
    }
}

/// What parsing an index file yields: an empty file is the empty index;
/// any other file must begin with the magic and hold every record it
/// counts. The decoded index is always version 1.
pub open spec fn parse_index(buf: Seq<u8>) -> Option<IndexV> {
    if buf.len() == 0 {
        Some(IndexV { version: 1, filemetas: Seq::empty() })
    } else if buf.len() < 12 {
        None
    } else if !starts_with(buf, index_magic()) {
        None
    } else {
        match parse_records(buf.skip(12), read_be32(buf.subrange(8, 12)) as nat) {
            Some(ms) => Some(IndexV { version: 1, filemetas: ms }),
            None => None,
        }
    }
}

/// An index is well formed when it is version 1, its records are well
/// formed, and their count fits the header field.
pub open spec fn index_wf(v: IndexV) -> bool {
    &&& v.version == 1
    &&& v.filemetas.len() <= u32::MAX
    &&& forall|i: int| 0 <= i < v.filemetas.len() ==> filemeta_wf(#[trigger] v.filemetas[i])
}

/// Records ordered by filename, descending.
pub open spec fn metas_sorted_desc(s: Seq<FileMetaV>) -> bool {
    forall|i: int, j: int|
        0 <= i < j < s.len() ==> lex_le(#[trigger] s[j].filename, #[trigger] s[i].filename)
}

/// Appending one record extends the serialized records by one.
pub proof fn lemma_index_records_push(ms: Seq<FileMetaV>, m: FileMetaV)
    ensures
        index_records(ms.push(m)) == index_records(ms) + record_bytes(m),
    decreases ms.len(),
{
    assert(index_records(ms.push(m)) == record_bytes(ms.push(m)[0]) + index_records(
        ms.push(m).drop_first(),
    ));
    if ms.len() == 0 {
        assert(ms.push(m)[0] == m);
        assert(ms.push(m).drop_first() =~= Seq::<FileMetaV>::empty());
        assert(index_records(Seq::<FileMetaV>::empty()) =~= Seq::<u8>::empty());
        assert(index_records(ms) =~= Seq::<u8>::empty());
        assert(index_records(ms.push(m)) =~= index_records(ms) + record_bytes(m));
    } else {
        lemma_index_records_push(ms.drop_first(), m);
        assert(ms.push(m).drop_first() =~= ms.drop_first().push(m));
        assert(ms.push(m)[0] == ms[0]);
        assert(index_records(ms) == record_bytes(ms[0]) + index_records(ms.drop_first()));
        assert(index_records(ms.push(m)) =~= index_records(ms) + record_bytes(m));
    }
}

/// Parsing a record works from any buffer that begins with its bytes.
pub proof fn lemma_parse_filemeta_prefix(m: FileMetaV, tail: Seq<u8>)
    requires
        filemeta_wf(m),
    ensures
        parse_filemeta(filemeta_bytes(m) + tail) == Some(m),
{
    let fb = filemeta_bytes(m);
    let buf = fb + tail;
    assert(fb.len() == 62 + m.filename.len());
    assert(buf.subrange(60, 62) =~= crate::bytes_codec::be16_bytes(m.filename_size));
    lemma_be16_round_trip(m.filename_size);
    assert(buf.subrange(0, 4) =~= be32_bytes(m.ctime));
    assert(buf.subrange(4, 8) =~= be32_bytes(m.ctime_nsec));
    assert(buf.subrange(8, 12) =~= be32_bytes(m.mtime));
    assert(buf.subrange(12, 16) =~= be32_bytes(m.mtime_nsec));
    assert(buf.subrange(16, 20) =~= be32_bytes(m.dev));
    assert(buf.subrange(20, 24) =~= be32_bytes(m.ino));
    assert(buf.subrange(24, 28) =~= be32_bytes(m.mode));
    assert(buf.subrange(28, 32) =~= be32_bytes(m.uid));
    assert(buf.subrange(32, 36) =~= be32_bytes(m.gid));
    assert(buf.subrange(36, 40) =~= be32_bytes(m.filesize));
    lemma_be32_round_trip(m.ctime);
    lemma_be32_round_trip(m.ctime_nsec);
    lemma_be32_round_trip(m.mtime);
    lemma_be32_round_trip(m.mtime_nsec);
    lemma_be32_round_trip(m.dev);
    lemma_be32_round_trip(m.ino);
    lemma_be32_round_trip(m.mode);
    lemma_be32_round_trip(m.uid);
    lemma_be32_round_trip(m.gid);
    lemma_be32_round_trip(m.filesize);
    assert(buf.subrange(40, 60) =~= m.hash);
    assert(buf.subrange(62, 62 + m.filename_size) =~= m.filename);
}

/// Parsing one whole record from the front of a buffer peels it off.
#[verifier::rlimit(100)]
pub proof fn lemma_parse_records_step(m: FileMetaV, tail: Seq<u8>, count: nat)
    requires
        filemeta_wf(m),
        count >= 1,
    ensures
        parse_records(record_bytes(m) + tail, count) == (match parse_records(
            tail,
            (count - 1) as nat,
        ) {
            Some(rest) => Some(seq![m] + rest),
            None => None::<Seq<FileMetaV>>,
        }),
{
    let fb = filemeta_bytes(m);
    let zs = zero_bytes(pad_of(m.filename_size as nat));
    let s = record_bytes(m) + tail;
    assert(record_bytes(m) == fb + zs);
    crate::bytes_codec::lemma_concat_assoc(fb, zs, tail);
    lemma_parse_filemeta_prefix(m, zs + tail);
    assert(parse_filemeta(s) == Some(m));
    let rl = 62 + m.filename_size + pad_of(m.filename_size as nat);
    assert(fb.len() == 62 + m.filename.len());
    assert(record_bytes(m).len() == rl);
    assert(s.len() >= rl);
    crate::bytes_codec::lemma_skip_concat(record_bytes(m), tail);
    assert(s.skip(rl as int) == tail);
}

/// Round trip of the records: parsing the serialization of well-formed
/// records gives them back, in order.
#[verifier::rlimit(50)]
pub proof fn lemma_parse_records_round_trip(ms: Seq<FileMetaV>)
    requires
        forall|i: int| 0 <= i < ms.len() ==> filemeta_wf(#[trigger] ms[i]),
    ensures
        parse_records(index_records(ms), ms.len()) == Some(ms),
    decreases ms.len(),
{
    if ms.len() == 0 {
        assert(parse_records(index_records(ms), 0) =~= Some(Seq::<FileMetaV>::empty()));
        assert(Seq::<FileMetaV>::empty() =~= ms);
    } else {
        let rest = ms.drop_first();
        lemma_parse_records_round_trip(rest);
        lemma_parse_records_step(ms[0], index_records(rest), ms.len());
        assert(index_records(ms) == record_bytes(ms[0]) + index_records(rest));
        assert(seq![ms[0]] + rest =~= ms);
    }
}

/// Round trip of the index file: parsing the serialization of a
/// well-formed index gives it back.
pub proof fn lemma_index_round_trip(v: IndexV)
    requires
        index_wf(v),
    ensures
        parse_index(index_bytes(v)) == Some(v),
{
    let buf = index_bytes(v);
    assert(buf.len() >= 12);
    assert(buf.subrange(0, 4) =~= index_magic());
    assert(starts_with(buf, index_magic()));
    assert(buf.subrange(8, 12) =~= be32_bytes(v.filemetas.len() as u32));
    lemma_be32_round_trip(v.filemetas.len() as u32);
    assert(buf.skip(12) =~= index_records(v.filemetas));
    lemma_parse_records_round_trip(v.filemetas);
    assert(parse_index(buf) =~= Some(v));
}

// ---------------------------------------------------------------------------
// The executable codec
// ---------------------------------------------------------------------------

/// The padding after a record whose name has `size` bytes.
pub fn padding(size: usize) -> (r: usize)
    requires
        size <= 0xffff,
    ensures
        r == pad_of(size as nat),
        1 <= r <= 8,
{
    8 - ((62 + size) % 8)
}

fn magic_bytes() -> (r: Vec<u8>)
    ensures
        r@ == index_magic(),
{
    let mut v: Vec<u8> = Vec::new();
    v.push(0x44u8);
    v.push(0x49u8);
    v.push(0x52u8);
    v.push(0x43u8);
    proof {
        assert(v@ =~= index_magic());
    }
    v
}

impl Index {
    /// The empty index, version 1.
    pub fn empty() -> (r: Self)
        ensures
            r@.version == 1,
            r@.filemetas == Seq::<FileMetaV>::empty(),
    {
        let r = Self { version: 1, filemetas: Vec::new() };
        proof {
            assert(meta_views(r.filemetas@) =~= Seq::<FileMetaV>::empty());
        }
        r
    }

    /// An index staging all the given records, version 1, in the given
    /// order.
    pub fn new_all(filemetas: Vec<FileMeta>) -> (r: Self)
        ensures
            r@.version == 1,
            r@.filemetas == meta_views(filemetas@),
    {
        Self { version: 1, filemetas }
    }

    /// The serialized index file.
    #[verifier::rlimit(100)]
    pub fn as_bytes(&self) -> (r: Vec<u8>)
        requires
            self.filemetas@.len() <= u32::MAX,
            forall|i: int|
                0 <= i < self.filemetas@.len() ==> (#[trigger] self.filemetas@[i]).filename@.len()
                    <= 0xffff,
        ensures
            r@ == index_bytes(self@),
    {
        let mut v: Vec<u8> = Vec::new();
        let mut magic = magic_bytes();
        v.append(&mut magic);
        push_be32(&mut v, self.version);
        push_be32(&mut v, self.filemetas.len() as u32);
        let ghost header = v@;
        let mut i: usize = 0;
        while i < self.filemetas.len()
            invariant
                0 <= i <= self.filemetas@.len(),
                v@ == header + index_records(meta_views(self.filemetas@).take(i as int)),
                forall|k: int|
                    0 <= k < self.filemetas@.len() ==> (
                    #[trigger] self.filemetas@[k]).filename@.len() <= 0xffff,
            decreases self.filemetas@.len() - i,
        {
            let mut rec = self.filemetas[i].as_bytes();
            v.append(&mut rec);
            let pad = padding(self.filemetas[i].filename_size as usize);
            let ghost before_pad = v@;
            let mut p: usize = 0;
            while p < pad
                invariant
                    0 <= p <= pad,
                    v@ == before_pad + zero_bytes(p as nat),
                decreases pad - p,
            {
                v.push(0x00u8);
                proof {
                    assert(v@ =~= before_pad + zero_bytes((p + 1) as nat));
                }
                p += 1;
            }
            proof {
                let mvs = meta_views(self.filemetas@);
                lemma_index_records_push(mvs.take(i as int), mvs[i as int]);
                assert(mvs.take(i + 1 as int) =~= mvs.take(i as int).push(mvs[i as int]));
                assert(self.filemetas@[i as int].filename_size == self@.filemetas[i as int].filename_size);
                assert(v@ =~= header + index_records(mvs.take(i + 1 as int)));
            }
            i += 1;
        }
        proof {
            assert(meta_views(self.filemetas@).take(i as int) =~= meta_views(self.filemetas@));
            assert(v@ =~= index_bytes(self@));
        }
        v
    }

    /// Decodes an index file. The empty file is the empty index; any
    /// other file must begin with a valid header and hold every record
    /// it counts, else `MalformedIndex`.
    #[verifier::rlimit(100)]
    pub fn from_rawindex(buf: Vec<u8>) -> (r: Result<Self, Error>)
        ensures
            match r {
                Ok(ix) => parse_index(buf@) == Some(ix@),
                Err(e) => parse_index(buf@) is None && e == Error::MalformedIndex,
            },
    {
        if buf.len() == 0 {
            let r = Index::empty();
            proof {
                assert(parse_index(buf@) =~= Some(r@));
            }
            return Ok(r);
        }
        if buf.len() < 12 {
            return Err(Error::MalformedIndex);
        }
        let s = buf.as_slice();
        if !has_prefix(s, &magic_bytes()) {
            return Err(Error::MalformedIndex);
        }
        let count = get_be32(s, 8);
        let mut filemetas: Vec<FileMeta> = Vec::new();
        let mut off: usize = 12;
        let mut k: u32 = 0;
        proof {
            assert(buf@.skip(12) =~= buf@.skip(12));
        }
        while k < count
            invariant
                12 <= off <= buf@.len(),
                0 <= k <= count,
                filemetas@.len() == k,
                s@ == buf@,
                buf@.len() >= 12,
                starts_with(buf@, index_magic()),
                count == read_be32(buf@.subrange(8, 12)),
                parse_records(buf@.skip(12), count as nat) == (match parse_records(
                    buf@.skip(off as int),
                    (count - k) as nat,
                ) {
                    Some(rest) => Some(meta_views(filemetas@) + rest),
                    None => None::<Seq<FileMetaV>>,
                }),
            decreases count - k,
        {
            let ghost tail = buf@.skip(off as int);
            let rec_slice = slice_subrange(s, off, s.len());
            proof {
                assert(rec_slice@ =~= tail);
            }
            let m = match FileMeta::from_rawindex(rec_slice) {
                Ok(m) => m,
                Err(_) => {
                    return Err(Error::MalformedIndex);
                },
            };
            let nsz = m.filename_size as usize;
            let pad = padding(nsz);
            let rl = 62 + nsz + pad;
            if buf.len() - off < rl {
                return Err(Error::MalformedIndex);
            }
            let ghost old_metas = filemetas@;
            filemetas.push(m);
            proof {
                assert(tail.skip(rl as int) =~= buf@.skip(off + rl));
                assert(meta_views(filemetas@) =~= meta_views(old_metas).push(m@));
                match parse_records(buf@.skip(off + rl), (count - k - 1) as nat) {
                    Some(rest) => {
                        assert(meta_views(old_metas) + (seq![m@] + rest) =~= meta_views(
                            filemetas@,
                        ) + rest);
                    },
                    None => {},
                }
            }
            off = off + rl;
            k += 1;
        }
        proof {
            assert(parse_records(buf@.skip(off as int), 0) =~= Some(Seq::<FileMetaV>::empty()));
            assert(meta_views(filemetas@) + Seq::<FileMetaV>::empty() =~= meta_views(filemetas@));
        }
        let r = Self { version: 1, filemetas };
        proof {
            assert(parse_index(buf@) =~= Some(r@));
        }
        Ok(r)
    }
}

/// The version-1 binary coding of the index, as a capability: the
/// serialized file and its decoder.
pub trait IndexVesion1: Sized {
    /// The serialized index file, or nothing when the index cannot be
    /// framed (more records than the header field can count, or a name
    /// longer than its length field).
    fn to_bytes(&self) -> Option<Vec<u8>>;

    /// Decodes an index file.
    fn of_bytes(buf: Vec<u8>) -> Result<Self, Error>;
}

impl IndexVesion1 for Index {
    fn to_bytes(&self) -> (r: Option<Vec<u8>>)
        ensures
            match r {
                Some(bytes) => bytes@ == index_bytes(self@),
                None => self.filemetas@.len() > u32::MAX || exists|i: int|
                    0 <= i < self.filemetas@.len() && (
                    #[trigger] self.filemetas@[i]).filename@.len() > 0xffff,
            },
    {
        if self.filemetas.len() > u32::MAX as usize {
            return None;
        }
        let mut i: usize = 0;
        while i < self.filemetas.len()
            invariant
                0 <= i <= self.filemetas@.len(),
                forall|t: int|
                    0 <= t < i ==> (#[trigger] self.filemetas@[t]).filename@.len() <= 0xffff,
            decreases self.filemetas@.len() - i,
        {
            if self.filemetas[i].filename.len() > 0xffff {
                return None;
            }
            i += 1;
        }
        Some(self.as_bytes())
    }

    fn of_bytes(buf: Vec<u8>) -> (r: Result<Self, Error>)
        ensures
            match r {
                Ok(ix) => parse_index(buf@) == Some(ix@),
                Err(e) => parse_index(buf@) is None && e == Error::MalformedIndex,
            },
    {
        Index::from_rawindex(buf)
    }
}

impl Default for Index {
    /// The empty index.
    fn default() -> (r: Self)
        ensures
            r@.version == 1,
            r@.filemetas == Seq::<FileMetaV>::empty(),
    {
        Index::empty()
    }
}


// ---------------------------------------------------------------------------
// Staging
// ---------------------------------------------------------------------------

/// The records of `ms` whose hash differs from `h`, in order.
pub open spec fn drop_hash(ms: Seq<FileMetaV>, h: Seq<u8>) -> Seq<FileMetaV>
    decreases ms.len(),
{
    if ms.len() == 0 {
        Seq::empty()
    } else {
        let rest = drop_hash(ms.drop_last(), h);
        if ms.last().hash != h {
            rest.push(ms.last())
        } else {
            rest
        }
    }
}

/// Sorts records by filename, descending, preserving the multiset of
/// records.
#[verifier::rlimit(100)]
fn sort_metas_desc(input: Vec<FileMeta>) -> (r: Vec<FileMeta>)
    ensures
        meta_views(r@).to_multiset() == meta_views(input@).to_multiset(),
        metas_sorted_desc(meta_views(r@)),
{
    let ghost orig = meta_views(input@);
    let mut rem = input;
    let mut out: Vec<FileMeta> = Vec::new();
    while rem.len() > 0
        invariant
            meta_views(out@).to_multiset().add(meta_views(rem@).to_multiset())
                == orig.to_multiset(),
            metas_sorted_desc(meta_views(out@)),
            forall|i: int, j: int|
                0 <= i < out@.len() && 0 <= j < rem@.len() ==> lex_le(
                    meta_views(rem@)[j].filename,
                    meta_views(out@)[i].filename,
                ),
        decreases rem.len(),
    {
        let mut mi: usize = 0;
        let mut k: usize = 1;
        proof {
            lemma_lex_le_total(rem@[0]@.filename, rem@[0]@.filename);
        }
        while k < rem.len()
            invariant
                0 <= mi < rem@.len(),
                1 <= k <= rem@.len(),
                forall|j: int| 0 <= j < k ==> lex_le(rem@[j]@.filename, rem@[mi as int]@.filename),
            decreases rem@.len() - k,
        {
            if crate::bytes_codec::bytes_le(&rem[mi].filename, &rem[k].filename) {
                proof {
                    assert forall|j: int| 0 <= j < k + 1 implies lex_le(
                        rem@[j]@.filename,
                        rem@[k as int]@.filename,
                    ) by {
                        if j < k {
                            lemma_lex_le_transitive(
                                rem@[j]@.filename,
                                rem@[mi as int]@.filename,
                                rem@[k as int]@.filename,
                            );
                        } else {
                            lemma_lex_le_total(rem@[k as int]@.filename, rem@[k as int]@.filename);
                        }
                    }
                }
                mi = k;
            } else {
                proof {
                    lemma_lex_le_total(rem@[mi as int]@.filename, rem@[k as int]@.filename);
                }
            }
            k += 1;
        }
        let ghost old_out = out@;
        let ghost old_rem = rem@;
        let e = rem.remove(mi);
        out.push(e);
        proof {
            let m = e@;
            assert(meta_views(old_out).push(m) =~= meta_views(out@));
            assert(meta_views(old_rem).remove(mi as int) =~= meta_views(rem@));
            let oms = meta_views(old_out).to_multiset();
            let rms = meta_views(old_rem).to_multiset();
            assert(meta_views(old_rem)[mi as int] == m);
            assert(meta_views(rem@).to_multiset() =~= rms.remove(m));
            assert(meta_views(out@).to_multiset() =~= oms.insert(m));
            assert(meta_views(old_rem).contains(m));
            assert(rms.count(m) >= 1);
            assert(oms.insert(m).add(rms.remove(m)) =~= oms.add(rms));
            assert forall|i: int, j: int|
                0 <= i < j < meta_views(out@).len() implies lex_le(
                meta_views(out@)[j].filename,
                meta_views(out@)[i].filename,
            ) by {
                if j == meta_views(out@).len() - 1 {
                    assert(meta_views(out@)[i] == meta_views(old_out)[i]);
                }
            }
            assert forall|i: int, j: int|
                0 <= i < out@.len() && 0 <= j < rem@.len() implies lex_le(
                meta_views(rem@)[j].filename,
                meta_views(out@)[i].filename,
            ) by {
                let x = meta_views(rem@)[j];
                if j < mi {
                    assert(x == meta_views(old_rem)[j]);
                } else {
                    assert(x == meta_views(old_rem)[j + 1]);
                }
                if i < out@.len() - 1 {
                    assert(meta_views(out@)[i] == meta_views(old_out)[i]);
                } else {
                    assert(meta_views(out@)[i] == m);
                }
            }
        }
    }
    proof {
        assert(meta_views(rem@).to_multiset() =~= Multiset::<FileMetaV>::empty());
        assert(meta_views(out@).to_multiset() =~= orig.to_multiset());
    }
    out
}

impl Index {
    /// Stages a record: any record with the same content hash is
    /// replaced, and the records are re-sorted by filename, descending.
    pub fn add(&mut self, add_filemeta: FileMeta)
        ensures
            final(self).version == old(self).version,
            meta_views(final(self).filemetas@).to_multiset() == drop_hash(
                meta_views(old(self).filemetas@),
                add_filemeta@.hash,
            ).push(add_filemeta@).to_multiset(),
            metas_sorted_desc(meta_views(final(self).filemetas@)),
    {
        let ghost olds = meta_views(self.filemetas@);
        let mut kept: Vec<FileMeta> = Vec::new();
        let mut i: usize = 0;
        while i < self.filemetas.len()
            invariant
                0 <= i <= self.filemetas@.len(),
                meta_views(kept@) == drop_hash(
                    meta_views(self.filemetas@).take(i as int),
                    add_filemeta@.hash,
                ),
            decreases self.filemetas@.len() - i,
        {
            let keep = !crate::bytes_codec::bytes_eq(&self.filemetas[i].hash, &add_filemeta.hash);
            let ghost mvs = meta_views(self.filemetas@);
            if keep {
                let m = self.filemetas[i].clone_meta();
                kept.push(m);
            }
            proof {
                assert(mvs.take(i + 1 as int).drop_last() =~= mvs.take(i as int));
                assert(mvs.take(i + 1 as int).last() == mvs[i as int]);
                if keep {
                    assert(meta_views(kept@) =~= drop_hash(
                        mvs.take(i as int),
                        add_filemeta@.hash,
                    ).push(mvs[i as int]));
                }
            }
            i += 1;
        }
        proof {
            assert(meta_views(self.filemetas@).take(i as int) =~= meta_views(self.filemetas@));
        }
        kept.push(add_filemeta);
        let ghost stacked = meta_views(kept@);
        let sorted = sort_metas_desc(kept);
        proof {
            assert(stacked =~= drop_hash(olds, add_filemeta@.hash).push(add_filemeta@));
        }
        self.filemetas = sorted;
    }
}

impl FileMeta {
    /// A field-for-field copy of the record.
    pub fn clone_meta(&self) -> (r: Self)
        ensures
            r@ == self@,
    {
        FileMeta {
            ctime: self.ctime,
            ctime_nsec: self.ctime_nsec,
            mtime: self.mtime,
            mtime_nsec: self.mtime_nsec,
            dev: self.dev,
            ino: self.ino,
            mode: self.mode,
            uid: self.uid,
            gid: self.gid,
            filesize: self.filesize,
            hash: crate::bytes_codec::clone_bytes(&self.hash),
            filename_size: self.filename_size,
            filename: crate::bytes_codec::clone_bytes(&self.filename),
        }
    }
}


// ---------------------------------------------------------------------------
// Diff
// ---------------------------------------------------------------------------

/// The filename-to-hash map of a record list; a later record with the
/// same name wins.
pub open spec fn name_map(ms: Seq<FileMetaV>) -> Map<Seq<u8>, Seq<u8>>
    decreases ms.len(),
{
    if ms.len() == 0 {
        Map::empty()
    } else {
        name_map(ms.drop_last()).insert(ms.last().filename, ms.last().hash)
    }
}

/// The index of the last record with the given name, or -1.
pub open spec fn last_occ(ms: Seq<FileMetaV>, k: Seq<u8>) -> int
    decreases ms.len(),
{
    if ms.len() == 0 {
        -1
    } else if ms.last().filename == k {
        ms.len() - 1
    } else {
        last_occ(ms.drop_last(), k)
    }
}

pub proof fn lemma_last_occ_pin(ms: Seq<FileMetaV>, k: Seq<u8>, j: int)
    requires
        0 <= j < ms.len(),
        ms[j].filename == k,
        forall|t: int| j < t < ms.len() ==> (#[trigger] ms[t]).filename != k,
    ensures
        last_occ(ms, k) == j,
    decreases ms.len(),
{
    if j == ms.len() - 1 {
    } else {
        assert(ms[ms.len() - 1].filename != k);
        assert forall|t: int| j < t < ms.len() - 1 implies (#[trigger] ms.drop_last()[t]).filename
            != k by {
            assert(ms.drop_last()[t] == ms[t]);
        }
        assert(ms.drop_last()[j] == ms[j]);
        lemma_last_occ_pin(ms.drop_last(), k, j);
    }
}

pub proof fn lemma_last_occ_none_pin(ms: Seq<FileMetaV>, k: Seq<u8>)
    requires
        forall|t: int| 0 <= t < ms.len() ==> (#[trigger] ms[t]).filename != k,
    ensures
        last_occ(ms, k) == -1,
    decreases ms.len(),
{
    if ms.len() > 0 {
        assert(ms[ms.len() - 1].filename != k);
        assert forall|t: int| 0 <= t < ms.len() - 1 implies (#[trigger] ms.drop_last()[t]).filename
            != k by {
            assert(ms.drop_last()[t] == ms[t]);
        }
        lemma_last_occ_none_pin(ms.drop_last(), k);
    }
}

pub proof fn lemma_last_occ_found(ms: Seq<FileMetaV>, k: Seq<u8>)
    requires
        last_occ(ms, k) >= 0,
    ensures
        0 <= last_occ(ms, k) < ms.len(),
        ms[last_occ(ms, k)].filename == k,
        forall|t: int| last_occ(ms, k) < t < ms.len() ==> (#[trigger] ms[t]).filename != k,
    decreases ms.len(),
{
    if ms.len() > 0 && ms.last().filename != k {
        lemma_last_occ_found(ms.drop_last(), k);
        assert forall|t: int| last_occ(ms, k) < t < ms.len() implies (#[trigger] ms[t]).filename
            != k by {
            if t < ms.len() - 1 {
                assert(ms.drop_last()[t] == ms[t]);
            }
        }
    }
}

pub proof fn lemma_last_occ_missing(ms: Seq<FileMetaV>, k: Seq<u8>)
    requires
        last_occ(ms, k) == -1,
    ensures
        forall|t: int| 0 <= t < ms.len() ==> (#[trigger] ms[t]).filename != k,
    decreases ms.len(),
{
    if ms.len() > 0 {
        lemma_last_occ_missing(ms.drop_last(), k);
        assert forall|t: int| 0 <= t < ms.len() implies (#[trigger] ms[t]).filename != k by {
            if t < ms.len() - 1 {
                assert(ms.drop_last()[t] == ms[t]);
            }
        }
    }
}

/// The name map holds exactly the last record under each name.
pub proof fn lemma_name_map_at(ms: Seq<FileMetaV>, i: int)
    requires
        0 <= i < ms.len(),
        forall|j: int| i < j < ms.len() ==> (#[trigger] ms[j]).filename != ms[i].filename,
    ensures
        name_map(ms).dom().contains(ms[i].filename),
        name_map(ms)[ms[i].filename] == ms[i].hash,
    decreases ms.len(),
{
    if i == ms.len() - 1 {
    } else {
        assert(ms.last().filename != ms[i].filename);
        assert(ms.drop_last()[i] == ms[i]);
        lemma_name_map_at(ms.drop_last(), i);
    }
}

/// A name under which no record exists is not in the map.
pub proof fn lemma_name_map_absent(ms: Seq<FileMetaV>, k: Seq<u8>)
    requires
        forall|i: int| 0 <= i < ms.len() ==> (#[trigger] ms[i]).filename != k,
    ensures
        !name_map(ms).dom().contains(k),
    decreases ms.len(),
{
    if ms.len() > 0 {
        assert(ms.last().filename != k);
        assert forall|i: int| 0 <= i < ms.len() - 1 implies (#[trigger] ms.drop_last()[i]).filename
            != k by {
            assert(ms.drop_last()[i] == ms[i]);
        }
        lemma_name_map_absent(ms.drop_last(), k);
    }
}

/// Every name in the map has a record.
pub proof fn lemma_name_map_dom(ms: Seq<FileMetaV>, k: Seq<u8>)
    requires
        name_map(ms).dom().contains(k),
    ensures
        last_occ(ms, k) >= 0,
    decreases ms.len(),
{
    if ms.len() > 0 && ms.last().filename != k {
        lemma_name_map_dom(ms.drop_last(), k);
    }
}

/// How one filename is classified between an old and a new index.
pub open spec fn diff_tag_of(
    om: Map<Seq<u8>, Seq<u8>>,
    nm: Map<Seq<u8>, Seq<u8>>,
    k: Seq<u8>,
) -> crate::diff::DIffTag {
    if om.dom().contains(k) && !nm.dom().contains(k) {
        crate::diff::DIffTag::Delete
    } else if !om.dom().contains(k) {
        crate::diff::DIffTag::Insert
    } else if om[k] == nm[k] {
        crate::diff::DIffTag::Equal
    } else {
        crate::diff::DIffTag::Replace
    }
}

/// The names of a change list.
pub open spec fn change_names(rs: Seq<(crate::diff::DIffTag, Vec<u8>)>) -> Seq<Seq<u8>> {
    rs.map_values(|p: (crate::diff::DIffTag, Vec<u8>)| p.1@)
}

/// Whether each change in `rs` is correctly classified between `om` and
/// `nm`, with no name repeated.
pub open spec fn changes_wf(
    rs: Seq<(crate::diff::DIffTag, Vec<u8>)>,
    om: Map<Seq<u8>, Seq<u8>>,
    nm: Map<Seq<u8>, Seq<u8>>,
) -> bool {
    &&& forall|a: int, b: int| 0 <= a < b < rs.len() ==> rs[a].1@ != rs[b].1@
    &&& forall|a: int|
        0 <= a < rs.len() ==> (om.dom().contains((#[trigger] rs[a]).1@) || nm.dom().contains(
            rs[a].1@,
        )) && rs[a].0 == diff_tag_of(om, nm, rs[a].1@)
}

/// True when `list[i]` is the last record with its name.
fn is_last_occurrence(list: &Vec<FileMeta>, i: usize) -> (r: bool)
    requires
        i < list@.len(),
    ensures
        r == (last_occ(meta_views(list@), meta_views(list@)[i as int].filename) == i),
{
    let ghost mvs = meta_views(list@);
    let n = list.len();
    let mut j: usize = i + 1;
    while j < n
        invariant
            i < j <= list@.len(),
            n == list@.len(),
            i < list@.len(),
            mvs == meta_views(list@),
            forall|t: int| i < t < j ==> (#[trigger] mvs[t]).filename != mvs[i as int].filename,
        decreases n - j,
    {
        if crate::bytes_codec::bytes_eq(&list[j].filename, &list[i].filename) {
            proof {
                assert(mvs[j as int].filename == mvs[i as int].filename);
                if last_occ(mvs, mvs[i as int].filename) == i {
                    lemma_last_occ_found(mvs, mvs[i as int].filename);
                    assert(mvs[j as int].filename != mvs[i as int].filename);
                }
            }
            return false;
        }
        j += 1;
    }
    proof {
        lemma_last_occ_pin(mvs, mvs[i as int].filename, i as int);
    }
    true
}

/// Finds the last record with the given name, if any.
fn find_last_with_name(list: &Vec<FileMeta>, k: &Vec<u8>) -> (r: Option<usize>)
    ensures
        match r {
            Some(j) => j < list@.len() && last_occ(meta_views(list@), k@) == j
                && meta_views(list@)[j as int].filename == k@,
            None => last_occ(meta_views(list@), k@) == -1,
        },
{
    let ghost mvs = meta_views(list@);
    let mut j: usize = list.len();
    while j > 0
        invariant
            0 <= j <= list@.len(),
            mvs == meta_views(list@),
            forall|t: int| j <= t < list@.len() ==> (#[trigger] mvs[t]).filename != k@,
        decreases j,
    {
        j -= 1;
        if crate::bytes_codec::bytes_eq(&list[j].filename, k) {
            proof {
                lemma_last_occ_pin(mvs, k@, j as int);
            }
            return Some(j);
        }
    }
    proof {
        lemma_last_occ_none_pin(mvs, k@);
    }
    None
}

impl crate::diff::Diff<Index, Vec<u8>> for Index {
    /// Classifies every filename of either index: a name only in `vs`
    /// (the older index) is `Delete`, a name only in `self` is `Insert`,
    /// a name in both is `Equal` or `Replace` by its hashes. Every such
    /// name appears exactly once.
    fn diff(&self, vs: Index) -> (r: Vec<(crate::diff::DIffTag, Vec<u8>)>)
        ensures
            changes_wf(r@, name_map(meta_views(vs.filemetas@)), name_map(meta_views(self.filemetas@))),
            forall|k: Seq<u8>|
                name_map(meta_views(vs.filemetas@)).dom().contains(k) || name_map(
                    meta_views(self.filemetas@),
                ).dom().contains(k) ==> change_names(r@).contains(k),
    {
        let ghost ovs = meta_views(vs.filemetas@);
        let ghost nvs = meta_views(self.filemetas@);
        let ghost om = name_map(ovs);
        let ghost nm = name_map(nvs);
        let mut out: Vec<(crate::diff::DIffTag, Vec<u8>)> = Vec::new();
        let mut i: usize = 0;
        while i < vs.filemetas.len()
            invariant
                0 <= i <= vs.filemetas@.len(),
                ovs == meta_views(vs.filemetas@),
                nvs == meta_views(self.filemetas@),
                om == name_map(ovs),
                nm == name_map(nvs),
                changes_wf(out@, om, nm),
                forall|a: int| 0 <= a < out@.len() ==> om.dom().contains((#[trigger] out@[a]).1@),
                forall|a: int|
                    0 <= a < out@.len() ==> 0 <= last_occ(ovs, (#[trigger] out@[a]).1@) < i,
                forall|k: Seq<u8>|
                    om.dom().contains(k) && 0 <= #[trigger] last_occ(ovs, k) < i ==> change_names(
                        out@,
                    ).contains(k),
            decreases vs.filemetas@.len() - i,
        {
            if is_last_occurrence(&vs.filemetas, i) {
                let ghost kv = ovs[i as int].filename;
                proof {
                    lemma_last_occ_found(ovs, kv);
                    lemma_name_map_at(ovs, i as int);
                }
                let k = crate::bytes_codec::clone_bytes(&vs.filemetas[i].filename);
                let ghost old_out = out@;
                match find_last_with_name(&self.filemetas, &vs.filemetas[i].filename) {
                    None => {
                        proof {
                            lemma_last_occ_missing(nvs, kv);
                            lemma_name_map_absent(nvs, kv);
                        }
                        out.push((crate::diff::DIffTag::Delete, k));
                    },
                    Some(j) => {
                        proof {
                            lemma_last_occ_found(nvs, kv);
                            lemma_name_map_at(nvs, j as int);
                        }
                        if crate::bytes_codec::bytes_eq(
                            &self.filemetas[j].hash,
                            &vs.filemetas[i].hash,
                        ) {
                            out.push((crate::diff::DIffTag::Equal, k));
                        } else {
                            out.push((crate::diff::DIffTag::Replace, k));
                        }
                    },
                }
                proof {
                    assert(out@.last().1@ == kv);
                    assert(change_names(out@) =~= change_names(old_out).push(kv));
                    assert forall|kk: Seq<u8>|
                        om.dom().contains(kk) && 0 <= #[trigger] last_occ(ovs, kk) < i
                            + 1 implies change_names(out@).contains(kk) by {
                        if last_occ(ovs, kk) < i {
                            assert(change_names(old_out).contains(kk));
                            let w = choose|w: int|
                                0 <= w < change_names(old_out).len() && change_names(old_out)[w]
                                    == kk;
                            assert(change_names(out@)[w] == kk);
                        } else {
                            lemma_last_occ_found(ovs, kk);
                            assert(ovs[i as int].filename == kk);
                            assert(change_names(out@).last() == kk);
                        }
                    }
                }
            } else {
                proof {
                    let ghost kv = ovs[i as int].filename;
                    assert forall|kk: Seq<u8>|
                        om.dom().contains(kk) && 0 <= #[trigger] last_occ(ovs, kk) < i
                            + 1 implies change_names(out@).contains(kk) by {
                        if last_occ(ovs, kk) == i {
                            lemma_last_occ_found(ovs, kk);
                            assert(ovs[i as int].filename == kk);
                        }
                    }
                }
            }
            i += 1;
        }
        proof {
            assert forall|k: Seq<u8>| om.dom().contains(k) implies change_names(out@).contains(
                k,
            ) by {
                lemma_name_map_dom(ovs, k);
                lemma_last_occ_found(ovs, k);
            }
        }
        let mut i2: usize = 0;
        while i2 < self.filemetas.len()
            invariant
                0 <= i2 <= self.filemetas@.len(),
                ovs == meta_views(vs.filemetas@),
                nvs == meta_views(self.filemetas@),
                om == name_map(ovs),
                nm == name_map(nvs),
                changes_wf(out@, om, nm),
                forall|k: Seq<u8>| om.dom().contains(k) ==> change_names(out@).contains(k),
                forall|a: int|
                    0 <= a < out@.len() ==> om.dom().contains((#[trigger] out@[a]).1@) || (0
                        <= last_occ(nvs, out@[a].1@) < i2),
                forall|k: Seq<u8>|
                    nm.dom().contains(k) && !om.dom().contains(k) && 0 <= #[trigger] last_occ(
                        nvs,
                        k,
                    ) < i2 ==> change_names(out@).contains(k),
            decreases self.filemetas@.len() - i2,
        {
            if is_last_occurrence(&self.filemetas, i2) {
                let ghost kv = nvs[i2 as int].filename;
                proof {
                    lemma_last_occ_found(nvs, kv);
                    lemma_name_map_at(nvs, i2 as int);
                }
                let in_old = find_last_with_name(&vs.filemetas, &self.filemetas[i2].filename);
                let push_it = match in_old {
                    None => true,
                    Some(_) => false,
                };
                if push_it {
                    proof {
                        lemma_last_occ_missing(ovs, kv);
                        lemma_name_map_absent(ovs, kv);
                    }
                    let k = crate::bytes_codec::clone_bytes(&self.filemetas[i2].filename);
                    let ghost old_out = out@;
                    out.push((crate::diff::DIffTag::Insert, k));
                    proof {
                        assert(change_names(out@) =~= change_names(old_out).push(kv));
                        assert forall|kk: Seq<u8>| om.dom().contains(kk) implies change_names(
                            out@,
                        ).contains(kk) by {
                            let w = choose|w: int|
                                0 <= w < change_names(old_out).len() && change_names(old_out)[w]
                                    == kk;
                            assert(change_names(out@)[w] == kk);
                        }
                        assert forall|kk: Seq<u8>|
                            nm.dom().contains(kk) && !om.dom().contains(kk) && 0
                                <= #[trigger] last_occ(nvs, kk) < i2 + 1 implies change_names(
                            out@,
                        ).contains(kk) by {
                            if last_occ(nvs, kk) < i2 {
                                let w = choose|w: int|
                                    0 <= w < change_names(old_out).len() && change_names(
                                        old_out,
                                    )[w] == kk;
                                assert(change_names(out@)[w] == kk);
                            } else {
                                lemma_last_occ_found(nvs, kk);
                                assert(nvs[i2 as int].filename == kk);
                                assert(change_names(out@).last() == kk);
                            }
                        }
                    }
                } else {
                    proof {
                        match in_old {
                            Some(j) => {
                                lemma_last_occ_found(ovs, kv);
                                lemma_name_map_at(ovs, j as int);
                            },
                            None => {},
                        }
                        assert(om.dom().contains(kv));
                        assert forall|kk: Seq<u8>|
                            nm.dom().contains(kk) && !om.dom().contains(kk) && 0
                                <= #[trigger] last_occ(nvs, kk) < i2 + 1 implies change_names(
                            out@,
                        ).contains(kk) by {
                            if last_occ(nvs, kk) == i2 {
                                lemma_last_occ_found(nvs, kk);
                                assert(nvs[i2 as int].filename == kk);
                                assert(kk == kv);
                            }
                        }
                    }
                }
            } else {
                proof {
                    let ghost kv = nvs[i2 as int].filename;
                    assert forall|kk: Seq<u8>|
                        nm.dom().contains(kk) && !om.dom().contains(kk) && 0 <= #[trigger] last_occ(
                            nvs,
                            kk,
                        ) < i2 + 1 implies change_names(out@).contains(kk) by {
                        if last_occ(nvs, kk) == i2 {
                            lemma_last_occ_found(nvs, kk);
                            assert(nvs[i2 as int].filename == kk);
                        }
                    }
                }
            }
            i2 += 1;
        }
        proof {
            assert forall|k: Seq<u8>|
                om.dom().contains(k) || nm.dom().contains(k) implies change_names(out@).contains(
                k,
            ) by {
                if !om.dom().contains(k) {
                    lemma_name_map_dom(nvs, k);
                    lemma_last_occ_found(nvs, k);
                }
            }
        }
        out
    }
}

} // verus!
