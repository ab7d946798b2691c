//! The tree object: a sequence of entries `(mode, name, hash)` framed as
//! `"tree " || decimal(len(body)) || 0x00 || body`, where the body is the
//! concatenation of `decimal(mode) || " " || name || 0x00 || hash_20B` in
//! name-sorted order.

use crate::bytes_codec::{
    dec_digits, find_byte, find_byte_at, lemma_find_byte_hit, lemma_find_byte_miss,
    lemma_lex_le_total, lemma_lex_le_transitive, lemma_u32_dec_round_trip, lex_le,
    parse_u32_dec, parse_u32_dec_spec, push_bytes, u64_to_dec,
};
use crate::error::Error;
use crate::metadata::FileMeta;
use crate::object::Hashable;
use vstd::multiset::Multiset;
use vstd::prelude::*;
use vstd::slice::{slice_subrange, slice_to_vec};

verus! {

broadcast use vstd::seq_lib::group_to_multiset_ensures;

/// The mathematical model of a tree entry.
pub ghost struct EntryV {
    pub mode: u32,
    pub name: Seq<u8>,
    pub hash: Seq<u8>,
}

/// A directory entry: the mode, name and hash of a child blob or tree.
#[derive(Debug, Clone, Eq, Ord, PartialEq, PartialOrd)]
pub struct Entry {
    pub mode: u32,
    pub name: Vec<u8>,
    pub hash: Vec<u8>,
}

impl View for Entry {
    type V = EntryV;

    open spec fn view(&self) -> EntryV {
        EntryV { mode: self.mode, name: self.name@, hash: self.hash@ }
    }
}

/// The models of a sequence of entries.
pub open spec fn entry_views(s: Seq<Entry>) -> Seq<EntryV> {
    s.map_values(|e: Entry| e@)
}

/// The serialized form of one entry.
pub open spec fn entry_bytes(e: EntryV) -> Seq<u8> {
    dec_digits(e.mode as nat) + seq![0x20u8] + e.name + seq![0x00u8] + e.hash
}

/// The body of a tree: its entries' serialized forms, concatenated.
pub open spec fn tree_body(entries: Seq<EntryV>) -> Seq<u8>
    decreases entries.len(),
{
    if entries.len() == 0 {
        Seq::empty()
    } else {
        entry_bytes(entries[0]) + tree_body(entries.drop_first())
    }
}

/// The canonical framing of a tree with the given entries.
pub open spec fn tree_framing(entries: Seq<EntryV>) -> Seq<u8> {
    seq![0x74u8, 0x72u8, 0x65u8, 0x65u8, 0x20u8] + dec_digits(tree_body(entries).len()) + seq![
        0x00u8,
    ] + tree_body(entries)
}

/// An entry is well formed when its hash is a 20-byte digest and its name
/// holds no NUL delimiter.
pub open spec fn entry_wf(e: EntryV) -> bool {
    &&& e.hash.len() == 20
    &&& forall|i: int| 0 <= i < e.name.len() ==> e.name[i] != 0x00
}

pub open spec fn entries_wf(s: Seq<EntryV>) -> bool {
    forall|i: int| 0 <= i < s.len() ==> entry_wf(#[trigger] s[i])
}

/// Entries ordered by name, lexicographically.
pub open spec fn entry_le(a: EntryV, b: EntryV) -> bool {
    lex_le(a.name, b.name)
}

pub open spec fn entries_sorted(s: Seq<EntryV>) -> bool {
    forall|i: int, j: int| 0 <= i < j < s.len() ==> entry_le(#[trigger] s[i], #[trigger] s[j])
}

/// What parsing a tree body yields: the entries read in input order, or
/// nothing if the body is not a whole number of well-delimited entries.
pub open spec fn parse_tree_body(s: Seq<u8>) -> Option<Seq<EntryV>>
    decreases s.len(),
{
    if s.len() == 0 {
        Some(Seq::empty())
    } else {
        let sp = find_byte(s, 0x20, 0);
        if sp < 0 {
            None
        } else {
            let nul = find_byte(s, 0x00, sp + 1);
            if nul < 0 || nul + 21 > s.len() {
                None
            } else {
                match parse_u32_dec_spec(s.subrange(0, sp)) {
                    Some(mode) => {
                        let e = EntryV {
                            mode,
                            name: s.subrange(sp + 1, nul),
                            hash: s.subrange(nul + 1, nul + 21),
                        };
                        match parse_tree_body(s.skip(nul + 21)) {
                            Some(rest) => Some(seq![e] + rest),
                            None => None,
                        }
                    },
                    None => None,
                }
            }
        }
    }
}

/// The body of `entries.push(e)` is the body of `entries` followed by the
/// bytes of `e`.
pub proof fn lemma_tree_body_push(entries: Seq<EntryV>, e: EntryV)
    ensures
        tree_body(entries.push(e)) == tree_body(entries) + entry_bytes(e),
    decreases entries.len(),
{
    assert(tree_body(entries.push(e)) == entry_bytes(entries.push(e)[0]) + tree_body(
        entries.push(e).drop_first(),
    ));
    if entries.len() == 0 {
        assert(entries.push(e).drop_first() =~= Seq::<EntryV>::empty());
        assert(entries.push(e)[0] == e);
        assert(tree_body(Seq::<EntryV>::empty()) =~= Seq::<u8>::empty());
        assert(tree_body(entries) =~= Seq::<u8>::empty());
        assert(tree_body(entries.push(e)) =~= tree_body(entries) + entry_bytes(e));
    } else {
        lemma_tree_body_push(entries.drop_first(), e);
        assert(entries.push(e).drop_first() =~= entries.drop_first().push(e));
        assert(entries.push(e)[0] == entries[0]);
        assert(tree_body(entries.drop_first().push(e)) == tree_body(entries.drop_first())
            + entry_bytes(e));
        assert(tree_body(entries) == entry_bytes(entries[0]) + tree_body(entries.drop_first()));
        assert(tree_body(entries.push(e)) =~= tree_body(entries) + entry_bytes(e));
    }
}

/// Round trip of the tree body: parsing the serialization of well-formed
/// entries gives them back, in order.
pub proof fn lemma_parse_tree_body_round_trip(entries: Seq<EntryV>)
    requires
        entries_wf(entries),
    ensures
        parse_tree_body(tree_body(entries)) == Some(entries),
    decreases entries.len(),
{
    if entries.len() == 0 {
        assert(parse_tree_body(tree_body(entries)) =~= Some(Seq::<EntryV>::empty()));
        assert(Seq::<EntryV>::empty() =~= entries);
    } else {
        let e = entries[0];
        let rest = entries.drop_first();
        let s = tree_body(entries);
        let digits = dec_digits(e.mode as nat);
        let k = digits.len() as int;
        crate::bytes_codec::lemma_dec_digits_wf(e.mode as nat);
        assert(entry_wf(e));
        // layout: digits ++ [0x20] ++ name ++ [0x00] ++ hash ++ tree_body(rest)
        let n = e.name.len() as int;
        assert(s =~= digits + seq![0x20u8] + e.name + seq![0x00u8] + e.hash + tree_body(rest));
        assert(s.len() == k + 1 + n + 1 + 20 + tree_body(rest).len());
        // the first space is the separator after the mode digits
        assert(forall|j: int| 0 <= j < k ==> s[j] == digits[j]);
        assert(forall|j: int| 0 <= j < k ==> s[j] != 0x20);
        assert(s[k] == 0x20);
        lemma_find_byte_hit(s, 0x20, 0, k);
        // the first NUL after the space ends the name
        assert(forall|j: int| k + 1 <= j < k + 1 + n ==> s[j] == e.name[j - (k + 1)]);
        assert(forall|j: int| k + 1 <= j < k + 1 + n ==> s[j] != 0x00);
        assert(s[k + 1 + n] == 0x00);
        lemma_find_byte_hit(s, 0x00, k + 1, k + 1 + n);
        let nul = k + 1 + n;
        assert(nul + 21 <= s.len());
        // the mode digits parse back to the mode
        assert(s.subrange(0, k) =~= digits);
        lemma_u32_dec_round_trip(e.mode);
        // the name and hash are read back verbatim
        assert(s.subrange(k + 1, nul) =~= e.name);
        assert(s.subrange(nul + 1, nul + 21) =~= e.hash);
        // and the remainder is the body of the remaining entries
        assert(s.skip(nul + 21) =~= tree_body(rest));
        lemma_parse_tree_body_round_trip(rest);
        assert(seq![e] + rest =~= entries);
    }
}

/// A directory object: an ordered sequence of entries.
#[derive(Debug, Clone, PartialEq)]
pub struct Tree {
    pub entries: Vec<Entry>,
}

impl View for Tree {
    type V = Seq<EntryV>;

    open spec fn view(&self) -> Seq<EntryV> {
        entry_views(self.entries@)
    }
}

impl Entry {
    /// An entry for a child object with the given mode, name and hash.
    pub fn new(mode: u32, name: Vec<u8>, hash: Vec<u8>) -> (r: Self)
        ensures
            r.mode == mode,
            r.name == name,
            r.hash == hash,
    {
        Self { mode, name, hash }
    }

    /// An entry for a child directory: the hash is that of the tree built
    /// from the given entries, sorted by name.
    pub fn new_group(mode: u32, name: Vec<u8>, entries: Vec<Entry>) -> (r: Self)
        ensures
            r.mode == mode,
            r.name == name,
            exists|t: Seq<EntryV>|
                entries_sorted(t) && t.to_multiset() == entry_views(entries@).to_multiset()
                    && r.hash@ == crate::hashing::sha1_of(tree_framing(t)),
    {
        let ghost evs = entry_views(entries@);
        let tree = Tree::from_entries(entries);
        let hash = tree.to_hash();
        proof {
            assert(entries_sorted(tree@) && tree@.to_multiset() == evs.to_multiset() && hash@
                == crate::hashing::sha1_of(tree_framing(tree@)));
        }
        Self { mode, name, hash }
    }

    /// The serialized form of this entry inside a tree body.
    pub fn as_bytes(&self) -> (r: Vec<u8>)
        ensures
            r@ == entry_bytes(self@),
    {
        let mut v = u64_to_dec(self.mode as u64);
        v.push(0x20u8);
        push_bytes(&mut v, self.name.as_slice());
        v.push(0x00u8);
        push_bytes(&mut v, self.hash.as_slice());
        proof {
            assert(v@ =~= entry_bytes(self@));
        }
        v
    }

    /// The kind of object this entry points at, read from the mode's high
    /// nibble: 4 names a tree, 8 a blob.
    pub fn as_type(&self) -> (r: &'static str)
        ensures
            ({
                let nib = (self.mode / 0x1000) % 0x10;
                if nib == 4 {
                    r@ == "tree"@
                } else if nib == 8 {
                    r@ == "blob"@
                } else {
                    r@ == "unknown"@
                }
            }),
    {
        let nib = (self.mode / 0x1000) % 0x10;
        if nib == 4 {
            "tree"
        } else if nib == 8 {
            "blob"
        } else {
            "unknown"
        }
    }
}

impl From<FileMeta> for Entry {
    /// An index record staged for a file becomes the tree entry for it.
    fn from(filemeta: FileMeta) -> (r: Self) {
        Entry { mode: filemeta.mode, name: filemeta.filename, hash: filemeta.hash }
    }
}

impl vstd::std_specs::convert::FromSpecImpl<FileMeta> for Entry {
    open spec fn obeys_from_spec() -> bool {
        true
    }

    open spec fn from_spec(m: FileMeta) -> Entry {
        Entry { mode: m.mode, name: m.filename, hash: m.hash }
    }
}

/// Sorts entries by name, lexicographically, preserving the multiset of
/// entries.
pub fn sort_entries(input: Vec<Entry>) -> (r: Vec<Entry>)
    ensures
        entry_views(r@).to_multiset() == entry_views(input@).to_multiset(),
        entries_sorted(entry_views(r@)),
{
    let ghost orig = entry_views(input@);
    let mut rem = input;
    let mut out: Vec<Entry> = Vec::new();
    while rem.len() > 0
        invariant
            entry_views(out@).to_multiset().add(entry_views(rem@).to_multiset())
                == orig.to_multiset(),
            entries_sorted(entry_views(out@)),
            forall|i: int, j: int|
                0 <= i < out@.len() && 0 <= j < rem@.len() ==> entry_le(
                    entry_views(out@)[i],
                    entry_views(rem@)[j],
                ),
        decreases rem.len(),
    {
        let mut mi: usize = 0;
        let mut k: usize = 1;
        proof {
            lemma_lex_le_total(rem@[0]@.name, rem@[0]@.name);
        }
        while k < rem.len()
            invariant
                0 <= mi < rem@.len(),
                1 <= k <= rem@.len(),
                forall|j: int| 0 <= j < k ==> entry_le(rem@[mi as int]@, rem@[j]@),
            decreases rem@.len() - k,
        {
            if crate::bytes_codec::bytes_le(&rem[k].name, &rem[mi].name) {
                proof {
                    assert forall|j: int| 0 <= j < k + 1 implies entry_le(
                        rem@[k as int]@,
                        rem@[j]@,
                    ) by {
                        if j < k {
                            lemma_lex_le_transitive(
                                rem@[k as int]@.name,
                                rem@[mi as int]@.name,
                                rem@[j]@.name,
                            );
                        } else {
                            lemma_lex_le_total(rem@[k as int]@.name, rem@[k as int]@.name);
                        }
                    }
                }
                mi = k;
            } else {
                proof {
                    lemma_lex_le_total(rem@[mi as int]@.name, rem@[k as int]@.name);
                }
            }
            k += 1;
        }
        let ghost old_out = out@;
        let ghost old_rem = rem@;
        let e = rem.remove(mi);
        out.push(e);
        proof {
            let m = e@;
            assert(entry_views(old_out).push(m) =~= entry_views(out@));
            assert(entry_views(old_rem).remove(mi as int) =~= entry_views(rem@));
            let oms = entry_views(old_out).to_multiset();
            let rms = entry_views(old_rem).to_multiset();
            assert(entry_views(old_rem)[mi as int] == m);
            assert(entry_views(rem@).to_multiset() =~= rms.remove(m));
            assert(entry_views(out@).to_multiset() =~= oms.insert(m));
            assert(entry_views(old_rem).contains(m));
            assert(rms.count(m) >= 1);
            assert(oms.insert(m).add(rms.remove(m)) =~= oms.add(rms));
            // the pushed minimum keeps the output sorted and below the rest
            assert forall|i: int, j: int|
                0 <= i < j < entry_views(out@).len() implies entry_le(
                entry_views(out@)[i],
                entry_views(out@)[j],
            ) by {
                if j == entry_views(out@).len() - 1 {
                    assert(entry_views(out@)[i] == entry_views(old_out)[i]);
                }
            }
            assert forall|i: int, j: int|
                0 <= i < out@.len() && 0 <= j < rem@.len() implies entry_le(
                entry_views(out@)[i],
                entry_views(rem@)[j],
            ) by {
                let x = entry_views(rem@)[j];
                if j < mi {
                    assert(x == entry_views(old_rem)[j]);
                } else {
                    assert(x == entry_views(old_rem)[j + 1]);
                }
                if i < out@.len() - 1 {
                    assert(entry_views(out@)[i] == entry_views(old_out)[i]);
                } else {
                    assert(entry_views(out@)[i] == m);
                }
            }
        }
    }
    proof {
        assert(entry_views(rem@).to_multiset() =~= Multiset::<EntryV>::empty());
        assert(entry_views(out@).to_multiset() =~= orig.to_multiset());
    }
    out
}

impl Tree {
    /// A tree over the given entries, canonicalized by sorting by name.
    pub fn from_entries(entries: Vec<Entry>) -> (r: Self)
        ensures
            r@.to_multiset() == entry_views(entries@).to_multiset(),
            entries_sorted(r@),
    {
        Self { entries: sort_entries(entries) }
    }

    /// Decodes a tree from the body that follows the framing header and
    /// canonicalizes the entry order. Returns `MalformedObject` exactly
    /// when the body is not a whole number of well-delimited entries.
    pub fn from_rawobject(content: &[u8]) -> (r: Result<Self, Error>)
        ensures
            match r {
                Ok(t) => parse_tree_body(content@) matches Some(es) && t@.to_multiset()
                    == es.to_multiset() && entries_sorted(t@),
                Err(e) => parse_tree_body(content@) is None && e == Error::MalformedObject,
            },
    {
        let mut entries: Vec<Entry> = Vec::new();
        let mut off: usize = 0;
        proof {
            assert(content@.skip(0) =~= content@);
            match parse_tree_body(content@) {
                Some(rest) => {
                    assert(entry_views(entries@) + rest =~= rest);
                },
                None => {},
            }
        }
        while off < content.len()
            invariant
                0 <= off <= content@.len(),
                parse_tree_body(content@) == (match parse_tree_body(
                    content@.skip(off as int),
                ) {
                    Some(rest) => Some(entry_views(entries@) + rest),
                    None => None::<Seq<EntryV>>,
                }),
            decreases content@.len() - off,
        {
            let ghost tail = content@.skip(off as int);
            let sp_opt = find_byte_at(content, 0x20u8, off);
            let sp = match sp_opt {
                Some(sp) => sp,
                None => {
                    proof {
                        assert forall|j: int| 0 <= j < tail.len() implies tail[j] != 0x20u8 by {
                            assert(tail[j] == content@[off + j]);
                        }
                        lemma_find_byte_miss(tail, 0x20u8, 0);
                    }
                    return Err(Error::MalformedObject);
                },
            };
            proof {
                assert forall|j: int| 0 <= j < sp - off implies tail[j] != 0x20u8 by {
                    assert(tail[j] == content@[off + j]);
                }
                assert(tail[sp - off] == content@[sp as int]);
                lemma_find_byte_hit(tail, 0x20u8, 0, sp - off);
            }
            let nul_opt = find_byte_at(content, 0x00u8, sp + 1);
            let nul = match nul_opt {
                Some(nul) => nul,
                None => {
                    proof {
                        assert forall|j: int| sp - off + 1 <= j < tail.len() implies tail[j]
                            != 0x00u8 by {
                            assert(tail[j] == content@[off + j]);
                        }
                        lemma_find_byte_miss(tail, 0x00u8, sp - off + 1);
                    }
                    return Err(Error::MalformedObject);
                },
            };
            proof {
                assert forall|j: int| sp - off + 1 <= j < nul - off implies tail[j] != 0x00u8 by {
                    assert(tail[j] == content@[off + j]);
                }
                assert(tail[nul - off] == content@[nul as int]);
                lemma_find_byte_hit(tail, 0x00u8, sp - off + 1, nul - off);
            }
            if content.len() - nul < 21 {
                return Err(Error::MalformedObject);
            }
            let mode_slice = slice_subrange(content, off, sp);
            proof {
                assert(content@.subrange(off as int, sp as int) =~= tail.subrange(
                    0,
                    sp - off,
                ));
            }
            let mode = match parse_u32_dec(mode_slice) {
                Some(m) => m,
                None => {
                    return Err(Error::MalformedObject);
                },
            };
            let name = slice_to_vec(slice_subrange(content, sp + 1, nul));
            let hash = slice_to_vec(slice_subrange(content, nul + 1, nul + 21));
            proof {
                assert(content@.subrange(sp + 1, nul as int) =~= tail.subrange(
                    sp - off + 1,
                    nul - off,
                ));
                assert(content@.subrange(nul + 1, nul + 21) =~= tail.subrange(
                    nul - off + 1,
                    nul - off + 21,
                ));
            }
            let ghost old_entries = entries@;
            entries.push(Entry { mode, name, hash });
            proof {
                let e = EntryV {
                    mode,
                    name: tail.subrange(sp - off + 1, nul - off),
                    hash: tail.subrange(nul - off + 1, nul - off + 21),
                };
                assert(tail.skip(nul - off + 21) =~= content@.skip(nul + 21));
                assert(entry_views(entries@) =~= entry_views(old_entries).push(e));
                match parse_tree_body(content@.skip(nul + 21)) {
                    Some(rest) => {
                        assert(entry_views(old_entries) + (seq![e] + rest) =~= entry_views(
                            entries@,
                        ) + rest);
                    },
                    None => {},
                }
            }
            off = nul + 21;
        }
        proof {
            assert(content@.skip(off as int) =~= Seq::<u8>::empty());
            assert(entry_views(entries@) + Seq::<EntryV>::empty() =~= entry_views(entries@));
        }
        let t = Tree::from_entries(entries);
        Ok(t)
    }
}

impl Hashable for Tree {
    open spec fn bytes_spec(&self) -> Seq<u8> {
        tree_framing(self@)
    }

    fn as_bytes(&self) -> (r: Vec<u8>)
        ensures
            r@ == self.bytes_spec(),
    {
        let mut body: Vec<u8> = Vec::new();
        let mut i: usize = 0;
        while i < self.entries.len()
            invariant
                0 <= i <= self.entries@.len(),
                body@ == tree_body(entry_views(self.entries@).take(i as int)),
            decreases self.entries@.len() - i,
        {
            let mut eb = self.entries[i].as_bytes();
            body.append(&mut eb);
            proof {
                let evs = entry_views(self.entries@);
                assert(evs.take(i + 1 as int) =~= evs.take(i as int).push(evs[i as int]));
                lemma_tree_body_push(evs.take(i as int), evs[i as int]);
            }
            i += 1;
        }
        proof {
            assert(entry_views(self.entries@).take(i as int) =~= entry_views(self.entries@));
        }
        let mut v: Vec<u8> = Vec::new();
        v.push(0x74u8);
        v.push(0x72u8);
        v.push(0x65u8);
        v.push(0x65u8);
        v.push(0x20u8);
        let mut digits = u64_to_dec(body.len() as u64);
        v.append(&mut digits);
        v.push(0x00u8);
        push_bytes(&mut v, body.as_slice());
        proof {
            assert(v@ =~= self.bytes_spec());
        }
        v
    }
}


// ---------------------------------------------------------------------------
// Determinism of tree hashing
// ---------------------------------------------------------------------------

/// No two entries share a name.
pub open spec fn entry_names_unique(s: Seq<EntryV>) -> bool {
    forall|i: int, j: int|
        0 <= i < j < s.len() ==> (#[trigger] s[i]).name != (#[trigger] s[j]).name
}

/// Two name-sorted entry sequences with unique names and the same
/// entries are identical.
pub proof fn lemma_sorted_unique_entries(a: Seq<EntryV>, b: Seq<EntryV>)
    requires
        entries_sorted(a),
        entries_sorted(b),
        entry_names_unique(a),
        entry_names_unique(b),
        a.to_multiset() == b.to_multiset(),
    ensures
        a == b,
    decreases a.len(),
{
    broadcast use vstd::seq_lib::group_to_multiset_ensures;

    a.to_multiset_ensures();
    b.to_multiset_ensures();
    if a.len() == 0 {
        assert(a.to_multiset().len() == 0);
        assert(b.len() == 0);
        assert(a =~= b);
    } else {
        assert(a.to_multiset().len() == b.to_multiset().len());
        assert(b.len() == a.len());
        // the head of each is in the other
        assert(a.to_multiset().count(a[0]) > 0);
        assert(b.to_multiset().count(a[0]) > 0);
        assert(b.contains(a[0]));
        let j = choose|j: int| 0 <= j < b.len() && b[j] == a[0];
        assert(a.to_multiset().count(b[0]) > 0);
        assert(a.contains(b[0]));
        let i = choose|i: int| 0 <= i < a.len() && a[i] == b[0];
        // heads are mutually ordered, so their names agree
        if j > 0 {
            assert(entry_le(b[0], b[j]));
        }
        if i > 0 {
            assert(entry_le(a[0], a[i]));
        }
        crate::bytes_codec::lemma_lex_le_total(a[0].name, b[0].name);
        if j > 0 && i > 0 {
            crate::bytes_codec::lemma_lex_le_antisymmetric(a[0].name, b[0].name);
            assert(b[0].name == b[j].name);
            assert(false);
        } else if j > 0 {
            // b[0] == a[i] with i == 0
            assert(a[0] == b[0]);
        } else {
            assert(a[0] == b[0]);
        }
        // peel the equal heads and recurse
        assert(a.remove(0).to_multiset() =~= a.to_multiset().remove(a[0]));
        assert(b.remove(0).to_multiset() =~= b.to_multiset().remove(b[0]));
        assert(a.remove(0) =~= a.drop_first());
        assert(b.remove(0) =~= b.drop_first());
        assert(a.drop_first().to_multiset() =~= b.drop_first().to_multiset());
        assert forall|p: int, q: int|
            0 <= p < q < a.drop_first().len() implies entry_le(
            #[trigger] a.drop_first()[p],
            #[trigger] a.drop_first()[q],
        ) by {
            assert(a.drop_first()[p] == a[p + 1]);
            assert(a.drop_first()[q] == a[q + 1]);
        }
        assert forall|p: int, q: int|
            0 <= p < q < b.drop_first().len() implies entry_le(
            #[trigger] b.drop_first()[p],
            #[trigger] b.drop_first()[q],
        ) by {
            assert(b.drop_first()[p] == b[p + 1]);
            assert(b.drop_first()[q] == b[q + 1]);
        }
        assert forall|p: int, q: int|
            0 <= p < q < a.drop_first().len() implies (#[trigger] a.drop_first()[p]).name != (
            #[trigger] a.drop_first()[q]).name by {
            assert(a.drop_first()[p] == a[p + 1]);
            assert(a.drop_first()[q] == a[q + 1]);
        }
        assert forall|p: int, q: int|
            0 <= p < q < b.drop_first().len() implies (#[trigger] b.drop_first()[p]).name != (
            #[trigger] b.drop_first()[q]).name by {
            assert(b.drop_first()[p] == b[p + 1]);
            assert(b.drop_first()[q] == b[q + 1]);
        }
        lemma_sorted_unique_entries(a.drop_first(), b.drop_first());
        assert forall|t: int| 0 <= t < a.len() implies a[t] == b[t] by {
            if t > 0 {
                assert(a[t] == a.drop_first()[t - 1]);
                assert(b[t] == b.drop_first()[t - 1]);
            }
        }
        assert(a =~= b);
    }
}

/// Determinism of tree hashing: trees holding the same entries, sorted
/// by their unique names, have the same canonical framing, and so the
/// same hash, whatever order the entries were first presented in.
pub proof fn lemma_tree_hash_deterministic(a: Seq<EntryV>, b: Seq<EntryV>)
    requires
        entries_sorted(a),
        entries_sorted(b),
        entry_names_unique(a),
        entry_names_unique(b),
        a.to_multiset() == b.to_multiset(),
    ensures
        tree_framing(a) == tree_framing(b),
        crate::hashing::sha1_of(tree_framing(a)) == crate::hashing::sha1_of(tree_framing(b)),
{
    lemma_sorted_unique_entries(a, b);
}

} // verus!
