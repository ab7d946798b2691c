//! The commit object: a text body of tagged lines framed as
//! `"commit " || decimal(len(body)) || 0x00 || body`. The body names the
//! root tree, the parents (or the literal `parent None` line for a root
//! commit), author, committer, date in unix seconds, and the message.

use crate::bytes_codec::{
    dec_digits, find_byte, find_byte_at, i64_dec_bytes, i64_to_dec, lemma_find_byte_hit,
    lemma_find_byte_miss, lemma_i64_dec_round_trip, parse_i64_dec, parse_i64_dec_spec, push_bytes,
    u64_to_dec,
};
use crate::error::Error;
use crate::object::Hashable;
use vstd::prelude::*;
use vstd::slice::{slice_subrange, slice_to_vec};

verus! {

// The tag bytes of each body line.
pub open spec fn tree_tag() -> Seq<u8> {
    seq![0x74u8, 0x72u8, 0x65u8, 0x65u8, 0x20u8]
}

pub open spec fn parent_tag() -> Seq<u8> {
    seq![0x70u8, 0x61u8, 0x72u8, 0x65u8, 0x6eu8, 0x74u8, 0x20u8]
}

pub open spec fn author_tag() -> Seq<u8> {
    seq![0x61u8, 0x75u8, 0x74u8, 0x68u8, 0x6fu8, 0x72u8, 0x20u8]
}

pub open spec fn committer_tag() -> Seq<u8> {
    seq![0x63u8, 0x6fu8, 0x6du8, 0x6du8, 0x69u8, 0x74u8, 0x74u8, 0x65u8, 0x72u8, 0x20u8]
}

pub open spec fn date_tag() -> Seq<u8> {
    seq![0x64u8, 0x61u8, 0x74u8, 0x65u8, 0x20u8]
}

pub open spec fn none_word() -> Seq<u8> {
    seq![0x4eu8, 0x6fu8, 0x6eu8, 0x65u8]
}

pub open spec fn starts_with(s: Seq<u8>, p: Seq<u8>) -> bool {
    s.len() >= p.len() && s.subrange(0, p.len() as int) == p
}

/// The mathematical model of a commit.
#[verifier::ext_equal]
pub ghost struct CommitV {
    pub tree_hash: Seq<u8>,
    pub parents: Seq<Seq<u8>>,
    pub author: Seq<u8>,
    pub committer: Seq<u8>,
    pub date: i64,
    pub message: Seq<u8>,
}

/// A snapshot object: the root tree's hex hash, the parents' hex hashes,
/// author, committer, date in unix seconds, and the message.
#[derive(Debug, Clone, PartialEq)]
pub struct Commit {
    pub tree_hash: Vec<u8>,
    pub parents: Vec<Vec<u8>>,
    pub author: Vec<u8>,
    pub committer: Vec<u8>,
    pub date: i64,
    pub message: Vec<u8>,
}

impl View for Commit {
    type V = CommitV;

    open spec fn view(&self) -> CommitV {
        CommitV {
            tree_hash: self.tree_hash@,
            parents: self.parents@.map_values(|p: Vec<u8>| p@),
            author: self.author@,
            committer: self.committer@,
            date: self.date,
            message: self.message@,
        }
    }
}

// ---------------------------------------------------------------------------
// Encoding
// ---------------------------------------------------------------------------

/// The parent lines for a non-empty parent list: one tagged line each.
pub open spec fn parents_lines(ps: Seq<Seq<u8>>) -> Seq<u8>
    decreases ps.len(),
{
    if ps.len() == 0 {
        Seq::empty()
    } else {
        parent_tag() + ps[0] + seq![0x0au8] + parents_lines(ps.drop_first())
    }
}

/// The parent section: the parent lines, or the literal `parent None`
/// line when there are no parents.
pub open spec fn parent_section(ps: Seq<Seq<u8>>) -> Seq<u8> {
    if ps.len() == 0 {
        parent_tag() + none_word() + seq![0x0au8]
    } else {
        parents_lines(ps)
    }
}

/// The body of a commit.
pub open spec fn commit_body(c: CommitV) -> Seq<u8> {
    tree_tag() + c.tree_hash + seq![0x0au8] + parent_section(c.parents) + author_tag() + c.author
        + seq![0x0au8] + committer_tag() + c.committer + seq![0x0au8] + date_tag() + i64_dec_bytes(
        c.date as int,
    ) + seq![0x0au8] + seq![0x0au8] + c.message + seq![0x0au8]
}

/// The canonical framing of a commit.
pub open spec fn commit_framing(c: CommitV) -> Seq<u8> {
    seq![0x63u8, 0x6fu8, 0x6du8, 0x6du8, 0x69u8, 0x74u8, 0x20u8] + dec_digits(
        commit_body(c).len(),
    ) + seq![0x00u8] + commit_body(c)
}

// ---------------------------------------------------------------------------
// Decoding
// ---------------------------------------------------------------------------

/// The fields accumulated while scanning the body's lines.
#[verifier::ext_equal]
pub ghost struct CommitAcc {
    pub tree_hash: Seq<u8>,
    pub parents: Seq<Seq<u8>>,
    pub author: Seq<u8>,
    pub committer: Seq<u8>,
    pub date_bytes: Seq<u8>,
    pub message: Seq<u8>,
}

pub open spec fn commit_acc_init() -> CommitAcc {
    CommitAcc {
        tree_hash: Seq::empty(),
        parents: Seq::empty(),
        author: Seq::empty(),
        committer: Seq::empty(),
        date_bytes: Seq::empty(),
        message: Seq::empty(),
    }
}

/// How one body line updates the accumulated fields: the line's leading
/// tag selects the field; an untagged line is the message; empty lines
/// and the literal `parent None` line change nothing.
pub open spec fn apply_line(line: Seq<u8>, acc: CommitAcc) -> CommitAcc {
    if line.len() == 0 {
        acc
    } else if starts_with(line, tree_tag()) {
        CommitAcc { tree_hash: line.skip(tree_tag().len() as int), ..acc }
    } else if starts_with(line, parent_tag()) {
        if line.skip(parent_tag().len() as int) == none_word() {
            acc
        } else {
            CommitAcc { parents: acc.parents.push(line.skip(parent_tag().len() as int)), ..acc }
        }
    } else if starts_with(line, author_tag()) {
        CommitAcc { author: line.skip(author_tag().len() as int), ..acc }
    } else if starts_with(line, committer_tag()) {
        CommitAcc { committer: line.skip(committer_tag().len() as int), ..acc }
    } else if starts_with(line, date_tag()) {
        CommitAcc { date_bytes: line.skip(date_tag().len() as int), ..acc }
    } else {
        CommitAcc { message: line, ..acc }
    }
}

/// Scans the body line by line, newline-delimited, threading the
/// accumulated fields.
pub open spec fn scan_lines(s: Seq<u8>, acc: CommitAcc) -> CommitAcc
    decreases s.len(),
{
    if s.len() == 0 {
        acc
    } else {
        let nl = find_byte(s, 0x0a, 0);
        if nl < 0 || nl >= s.len() {
            apply_line(s, acc)
        } else {
            scan_lines(s.skip(nl + 1), apply_line(s.subrange(0, nl), acc))
        }
    }
}

/// What parsing a commit body yields: the scanned fields, defined exactly
/// when the date line holds a decimal `i64`.
pub open spec fn parse_commit_body(s: Seq<u8>) -> Option<CommitV> {
    let acc = scan_lines(s, commit_acc_init());
    match parse_i64_dec_spec(acc.date_bytes) {
        Some(d) => Some(
            CommitV {
                tree_hash: acc.tree_hash,
                parents: acc.parents,
                author: acc.author,
                committer: acc.committer,
                date: d,
                message: acc.message,
            },
        ),
        None => None,
    }
}

// ---------------------------------------------------------------------------
// Scan lemmas
// ---------------------------------------------------------------------------

/// A prefix made of whole lines is scanned first.
pub proof fn lemma_scan_append(s1: Seq<u8>, s2: Seq<u8>, acc: CommitAcc)
    requires
        s1.len() == 0 || s1.last() == 0x0a,
    ensures
        scan_lines(s1 + s2, acc) == scan_lines(s2, scan_lines(s1, acc)),
    decreases s1.len(),
{
    if s1.len() == 0 {
        assert(s1 + s2 =~= s2);
    } else {
        let s = s1 + s2;
        crate::bytes_codec::lemma_find_byte_props(s1, 0x0a, 0);
        let nl1 = find_byte(s1, 0x0a, 0);
        assert(s1[s1.len() - 1] == 0x0a);
        crate::bytes_codec::lemma_find_byte_found(s1, 0x0a, 0, s1.len() - 1);
        assert(0 <= nl1 < s1.len());
        assert forall|j: int| 0 <= j < nl1 implies s[j] != 0x0a by {
            assert(s[j] == s1[j]);
        }
        assert(s[nl1] == s1[nl1]);
        lemma_find_byte_hit(s, 0x0a, 0, nl1);
        assert(s.subrange(0, nl1) =~= s1.subrange(0, nl1));
        assert(s.skip(nl1 + 1) =~= s1.skip(nl1 + 1) + s2);
        if nl1 + 1 == s1.len() {
            assert(s1.skip(nl1 + 1) =~= Seq::<u8>::empty());
        } else {
            assert(s1.skip(nl1 + 1).last() == s1.last());
        }
        lemma_scan_append(s1.skip(nl1 + 1), s2, apply_line(s1.subrange(0, nl1), acc));
    }
}

/// Scanning a single newline-terminated line applies it.
pub proof fn lemma_scan_line(line: Seq<u8>, acc: CommitAcc)
    requires
        forall|i: int| 0 <= i < line.len() ==> line[i] != 0x0a,
    ensures
        scan_lines(line + seq![0x0au8], acc) == apply_line(line, acc),
{
    let s = line + seq![0x0au8];
    assert forall|j: int| 0 <= j < line.len() implies s[j] != 0x0a by {
        assert(s[j] == line[j]);
    }
    assert(s[line.len() as int] == 0x0a);
    lemma_find_byte_hit(s, 0x0a, 0, line.len() as int);
    assert(s.subrange(0, line.len() as int) =~= line);
    assert(s.skip(line.len() as int + 1) =~= Seq::<u8>::empty());
    assert(scan_lines(Seq::<u8>::empty(), apply_line(line, acc)) == apply_line(line, acc));
}

// ---------------------------------------------------------------------------
// The commit type
// ---------------------------------------------------------------------------

/// Relies on `std::time::SystemTime::now`: the clock, read as whole
/// seconds since the Unix epoch, negated when the clock stands before
/// it and saturated at the `i64` range. Nothing is promised of the
/// value, and no reading can make the call panic.
#[verifier::external_body]
fn now_unix_seconds() -> i64 {
    match std::time::SystemTime::now().duration_since(std::time::UNIX_EPOCH) {
        Ok(d) => i64::try_from(d.as_secs()).unwrap_or(i64::MAX),
        Err(e) => match i64::try_from(e.duration().as_secs()) {
            Ok(s) => -s,
            Err(_) => i64::MIN,
        },
    }
}

impl Commit {
    /// A new commit over the given tree, parents and identity, dated now.
    pub fn new(
        tree_hash: Vec<u8>,
        parents: Vec<Vec<u8>>,
        author: Vec<u8>,
        committer: Vec<u8>,
        message: Vec<u8>,
    ) -> (r: Result<Self, Error>)
        ensures
            r matches Ok(c) && c.tree_hash == tree_hash && c.parents == parents && c.author
                == author && c.committer == committer && c.message == message,
    {
        let date = now_unix_seconds();
        Ok(Self { tree_hash, parents, author, committer, date, message })
    }

    /// Decodes a commit from the body that follows the framing header.
    /// Returns `MalformedObject` exactly when the date line is missing or
    /// not a decimal number.
    pub fn from_rawobject(content: &[u8]) -> (r: Result<Self, Error>)
        ensures
            match r {
                Ok(c) => parse_commit_body(content@) == Some(c@),
                Err(e) => parse_commit_body(content@) is None && e == Error::MalformedObject,
            },
    {
        let mut tree_hash: Vec<u8> = Vec::new();
        let mut parents: Vec<Vec<u8>> = Vec::new();
        let mut author: Vec<u8> = Vec::new();
        let mut committer: Vec<u8> = Vec::new();
        let mut date_bytes: Vec<u8> = Vec::new();
        let mut message: Vec<u8> = Vec::new();
        let ghost init = commit_acc_init();
        let mut off: usize = 0;
        proof {
            assert(content@.skip(0) =~= content@);
            assert((CommitAcc {
                tree_hash: tree_hash@,
                parents: parents@.map_values(|p: Vec<u8>| p@),
                author: author@,
                committer: committer@,
                date_bytes: date_bytes@,
                message: message@,
            }) =~= commit_acc_init());
        }
        while off < content.len()
            invariant
                0 <= off <= content@.len(),
                scan_lines(content@, commit_acc_init()) == scan_lines(
                    content@.skip(off as int),
                    CommitAcc {
                        tree_hash: tree_hash@,
                        parents: parents@.map_values(|p: Vec<u8>| p@),
                        author: author@,
                        committer: committer@,
                        date_bytes: date_bytes@,
                        message: message@,
                    },
                ),
            decreases content@.len() - off,
        {
            let ghost tail = content@.skip(off as int);
            let ghost acc = CommitAcc {
                tree_hash: tree_hash@,
                parents: parents@.map_values(|p: Vec<u8>| p@),
                author: author@,
                committer: committer@,
                date_bytes: date_bytes@,
                message: message@,
            };
            let nl_opt = find_byte_at(content, 0x0au8, off);
            let line_end = match nl_opt {
                Some(nl) => nl,
                None => content.len(),
            };
            proof {
                match nl_opt {
                    Some(nl) => {
                        assert forall|j: int| 0 <= j < nl - off implies tail[j] != 0x0au8 by {
                            assert(tail[j] == content@[off + j]);
                        }
                        assert(tail[nl - off] == content@[nl as int]);
                        lemma_find_byte_hit(tail, 0x0au8, 0, nl - off);
                    },
                    None => {
                        assert forall|j: int| 0 <= j < tail.len() implies tail[j] != 0x0au8 by {
                            assert(tail[j] == content@[off + j]);
                        }
                        lemma_find_byte_miss(tail, 0x0au8, 0);
                    },
                }
            }
            let line = slice_subrange(content, off, line_end);
            proof {
                assert(line@ =~= tail.subrange(0, line_end - off));
            }
            // classify the line by its tag
            if line.len() == 0 {
                // an empty line changes nothing
            } else if has_prefix(line, &tag_tree()) {
                tree_hash = slice_to_vec(slice_subrange(line, 5, line.len()));
                proof {
                    assert(tree_hash@ =~= line@.skip(5));
                }
            } else if has_prefix(line, &tag_parent()) {
                let rest = slice_to_vec(slice_subrange(line, 7, line.len()));
                proof {
                    assert(rest@ =~= line@.skip(7));
                }
                if !is_none_word(&rest) {
                    let ghost old_parents = parents@;
                    parents.push(rest);
                    proof {
                        assert(parents@.map_values(|p: Vec<u8>| p@) =~= old_parents.map_values(
                            |p: Vec<u8>| p@,
                        ).push(line@.skip(7)));
                    }
                }
            } else if has_prefix(line, &tag_author()) {
                author = slice_to_vec(slice_subrange(line, 7, line.len()));
                proof {
                    assert(author@ =~= line@.skip(7));
                }
            } else if has_prefix(line, &tag_committer()) {
                committer = slice_to_vec(slice_subrange(line, 10, line.len()));
                proof {
                    assert(committer@ =~= line@.skip(10));
                }
            } else if has_prefix(line, &tag_date()) {
                date_bytes = slice_to_vec(slice_subrange(line, 5, line.len()));
                proof {
                    assert(date_bytes@ =~= line@.skip(5));
                }
            } else {
                message = slice_to_vec(line);
            }
            proof {
                let new_acc = apply_line(line@, acc);
                assert(new_acc =~= (CommitAcc {
                    tree_hash: tree_hash@,
                    parents: parents@.map_values(|p: Vec<u8>| p@),
                    author: author@,
                    committer: committer@,
                    date_bytes: date_bytes@,
                    message: message@,
                }));
                match nl_opt {
                    Some(nl) => {
                        assert(tail.skip(nl - off + 1) =~= content@.skip(nl + 1));
                    },
                    None => {
                        assert(line@ =~= tail);
                        assert(content@.skip(content@.len() as int) =~= Seq::<u8>::empty());
                    },
                }
            }
            off = if line_end < content.len() {
                line_end + 1
            } else {
                content.len()
            };
        }
        proof {
            assert(content@.skip(off as int) =~= Seq::<u8>::empty());
        }
        let date = match parse_i64_dec(date_bytes.as_slice()) {
            Some(d) => d,
            None => {
                return Err(Error::MalformedObject);
            },
        };
        Ok(Self { tree_hash, parents, author, committer, date, message })
    }
}

// ---------------------------------------------------------------------------
// Exec helpers for the tags
// ---------------------------------------------------------------------------

fn tag_tree() -> (r: Vec<u8>)
    ensures
        r@ == tree_tag(),
{
    let mut v: Vec<u8> = Vec::new();
    v.push(0x74u8);
    v.push(0x72u8);
    v.push(0x65u8);
    v.push(0x65u8);
    v.push(0x20u8);
    proof {
        assert(v@ =~= tree_tag());
    }
    v
}

fn tag_parent() -> (r: Vec<u8>)
    ensures
        r@ == parent_tag(),
{
    let mut v: Vec<u8> = Vec::new();
    v.push(0x70u8);
    v.push(0x61u8);
    v.push(0x72u8);
    v.push(0x65u8);
    v.push(0x6eu8);
    v.push(0x74u8);
    v.push(0x20u8);
    proof {
        assert(v@ =~= parent_tag());
    }
    v
}

fn tag_author() -> (r: Vec<u8>)
    ensures
        r@ == author_tag(),
{
    let mut v: Vec<u8> = Vec::new();
    v.push(0x61u8);
    v.push(0x75u8);
    v.push(0x74u8);
    v.push(0x68u8);
    v.push(0x6fu8);
    v.push(0x72u8);
    v.push(0x20u8);
    proof {
        assert(v@ =~= author_tag());
    }
    v
}

fn tag_committer() -> (r: Vec<u8>)
    ensures
        r@ == committer_tag(),
{
    let mut v: Vec<u8> = Vec::new();
    v.push(0x63u8);
    v.push(0x6fu8);
    v.push(0x6du8);
    v.push(0x6du8);
    v.push(0x69u8);
    v.push(0x74u8);
    v.push(0x74u8);
    v.push(0x65u8);
    v.push(0x72u8);
    v.push(0x20u8);
    proof {
        assert(v@ =~= committer_tag());
    }
    v
}

fn tag_date() -> (r: Vec<u8>)
    ensures
        r@ == date_tag(),
{
    let mut v: Vec<u8> = Vec::new();
    v.push(0x64u8);
    v.push(0x61u8);
    v.push(0x74u8);
    v.push(0x65u8);
    v.push(0x20u8);
    proof {
        assert(v@ =~= date_tag());
    }
    v
}

/// Decides whether `s` begins with the bytes of `p`.
pub fn has_prefix(s: &[u8], p: &Vec<u8>) -> (r: bool)
    ensures
        r == starts_with(s@, p@),
{
    if s.len() < p.len() {
        proof {
            assert(!starts_with(s@, p@));
        }
        return false;
    }
    let mut i: usize = 0;
    while i < p.len()
        invariant
            0 <= i <= p@.len(),
            p@.len() <= s@.len(),
            forall|j: int| 0 <= j < i ==> s@[j] == p@[j],
        decreases p@.len() - i,
    {
        if s[i] != p[i] {
            proof {
                if starts_with(s@, p@) {
                    assert(s@.subrange(0, p@.len() as int)[i as int] == p@[i as int]);
                }
            }
            return false;
        }
        i += 1;
    }
    proof {
        assert(s@.subrange(0, p@.len() as int) =~= p@);
    }
    true
}

/// Decides whether `s` is the literal word `None`.
fn is_none_word(s: &Vec<u8>) -> (r: bool)
    ensures
        r == (s@ == none_word()),
{
    if s.len() != 4 {
        return false;
    }
    let r = s[0] == 0x4eu8 && s[1] == 0x6fu8 && s[2] == 0x6eu8 && s[3] == 0x65u8;
    proof {
        if r {
            assert(s@ =~= none_word());
        }
    }
    r
}

impl Hashable for Commit {
    open spec fn bytes_spec(&self) -> Seq<u8> {
        commit_framing(self@)
    }

    fn as_bytes(&self) -> (r: Vec<u8>)
        ensures
            r@ == self.bytes_spec(),
    {
        let mut body: Vec<u8> = Vec::new();
        let mut t = tag_tree();
        body.append(&mut t);
        push_bytes(&mut body, self.tree_hash.as_slice());
        body.push(0x0au8);
        if self.parents.len() == 0 {
            let mut p = tag_parent();
            body.append(&mut p);
            body.push(0x4eu8);
            body.push(0x6fu8);
            body.push(0x6eu8);
            body.push(0x65u8);
            body.push(0x0au8);
            proof {
                assert(body@ =~= tree_tag() + self.tree_hash@ + seq![0x0au8] + parent_section(
                    self@.parents,
                ));
            }
        } else {
            let ghost pre = body@;
            let mut i: usize = 0;
            while i < self.parents.len()
                invariant
                    0 <= i <= self.parents@.len(),
                    body@ == pre + parents_lines(
                        self.parents@.map_values(|p: Vec<u8>| p@).take(i as int),
                    ),
                decreases self.parents@.len() - i,
            {
                let mut p = tag_parent();
                body.append(&mut p);
                push_bytes(&mut body, self.parents[i].as_slice());
                body.push(0x0au8);
                proof {
                    let pvs = self.parents@.map_values(|p: Vec<u8>| p@);
                    lemma_parents_lines_push(pvs.take(i as int), pvs[i as int]);
                    assert(pvs.take(i + 1 as int) =~= pvs.take(i as int).push(pvs[i as int]));
                    assert(body@ =~= pre + parents_lines(pvs.take(i + 1 as int)));
                }
                i += 1;
            }
            proof {
                let pvs = self.parents@.map_values(|p: Vec<u8>| p@);
                assert(pvs.take(i as int) =~= pvs);
            }
        }
        let mut a = tag_author();
        body.append(&mut a);
        push_bytes(&mut body, self.author.as_slice());
        body.push(0x0au8);
        let mut cm = tag_committer();
        body.append(&mut cm);
        push_bytes(&mut body, self.committer.as_slice());
        body.push(0x0au8);
        let mut d = tag_date();
        body.append(&mut d);
        let mut dd = i64_to_dec(self.date);
        body.append(&mut dd);
        body.push(0x0au8);
        body.push(0x0au8);
        push_bytes(&mut body, self.message.as_slice());
        body.push(0x0au8);
        proof {
            assert(body@ =~= commit_body(self@));
        }
        let mut v: Vec<u8> = Vec::new();
        v.push(0x63u8);
        v.push(0x6fu8);
        v.push(0x6du8);
        v.push(0x6du8);
        v.push(0x69u8);
        v.push(0x74u8);
        v.push(0x20u8);
        let mut digits = u64_to_dec(body.len() as u64);
        v.append(&mut digits);
        v.push(0x00u8);
        push_bytes(&mut v, body.as_slice());
        proof {
            assert(v@ =~= self.bytes_spec());
        }
        v
    }
}

/// Appending one more parent extends the parent lines by one line.
pub proof fn lemma_parents_lines_push(ps: Seq<Seq<u8>>, p: Seq<u8>)
    ensures
        parents_lines(ps.push(p)) == parents_lines(ps) + parent_tag() + p + seq![0x0au8],
    decreases ps.len(),
{
    assert(parents_lines(ps.push(p)) == parent_tag() + ps.push(p)[0] + seq![0x0au8]
        + parents_lines(ps.push(p).drop_first()));
    if ps.len() == 0 {
        assert(ps.push(p)[0] == p);
        assert(ps.push(p).drop_first() =~= Seq::<Seq<u8>>::empty());
        assert(parents_lines(Seq::<Seq<u8>>::empty()) =~= Seq::<u8>::empty());
        assert(parents_lines(ps) =~= Seq::<u8>::empty());
        assert(parents_lines(ps.push(p)) =~= parents_lines(ps) + parent_tag() + p + seq![0x0au8]);
    } else {
        lemma_parents_lines_push(ps.drop_first(), p);
        assert(ps.push(p).drop_first() =~= ps.drop_first().push(p));
        assert(ps.push(p)[0] == ps[0]);
        assert(parents_lines(ps) == parent_tag() + ps[0] + seq![0x0au8] + parents_lines(
            ps.drop_first(),
        ));
        assert(parents_lines(ps.push(p)) =~= parents_lines(ps) + parent_tag() + p + seq![0x0au8]);
    }
}


// ---------------------------------------------------------------------------
// Round trip
// ---------------------------------------------------------------------------

pub open spec fn no_newline(s: Seq<u8>) -> bool {
    forall|i: int| 0 <= i < s.len() ==> s[i] != 0x0a
}

/// The commits whose body format round-trips: every field is a single
/// line, no parent is the literal word `None`, and the message does not
/// begin with a field tag.
pub open spec fn commit_wf(c: CommitV) -> bool {
    &&& no_newline(c.tree_hash)
    &&& no_newline(c.author)
    &&& no_newline(c.committer)
    &&& no_newline(c.message)
    &&& forall|i: int|
        0 <= i < c.parents.len() ==> no_newline(#[trigger] c.parents[i]) && c.parents[i]
            != none_word()
    &&& !starts_with(c.message, tree_tag())
    &&& !starts_with(c.message, parent_tag())
    &&& !starts_with(c.message, author_tag())
    &&& !starts_with(c.message, committer_tag())
    &&& !starts_with(c.message, date_tag())
}

/// `p` is not a prefix of `s` when they differ at index `i`.
proof fn lemma_differs_not_prefix(s: Seq<u8>, p: Seq<u8>, i: int)
    requires
        0 <= i < p.len(),
        s.len() < p.len() || s[i] != p[i],
    ensures
        !starts_with(s, p),
{
    if starts_with(s, p) {
        assert(s.subrange(0, p.len() as int)[i] == p[i]);
    }
}

/// Scanning the parent lines appends the parents, in order.
proof fn lemma_scan_parents(ps: Seq<Seq<u8>>, acc: CommitAcc)
    requires
        forall|i: int|
            0 <= i < ps.len() ==> no_newline(#[trigger] ps[i]) && ps[i] != none_word(),
    ensures
        scan_lines(parents_lines(ps), acc) == (CommitAcc { parents: acc.parents + ps, ..acc }),
    decreases ps.len(),
{
    if ps.len() == 0 {
        assert(acc.parents + ps =~= acc.parents);
        assert(scan_lines(parents_lines(ps), acc) =~= (CommitAcc {
            parents: acc.parents + ps,
            ..acc
        }));
    } else {
        let line = parent_tag() + ps[0];
        let rest = parents_lines(ps.drop_first());
        assert(parents_lines(ps) =~= (line + seq![0x0au8]) + rest);
        assert(no_newline(ps[0]));
        assert forall|i: int| 0 <= i < line.len() implies line[i] != 0x0a by {
            if i >= parent_tag().len() {
                assert(line[i] == ps[0][i - parent_tag().len()]);
            }
        }
        lemma_scan_append(line + seq![0x0au8], rest, acc);
        lemma_scan_line(line, acc);
        assert(line[0] == 0x70);
        lemma_differs_not_prefix(line, tree_tag(), 0);
        assert(line.subrange(0, parent_tag().len() as int) =~= parent_tag());
        assert(line.skip(parent_tag().len() as int) =~= ps[0]);
        let acc1 = apply_line(line, acc);
        assert(acc1 =~= (CommitAcc { parents: acc.parents.push(ps[0]), ..acc }));
        lemma_scan_parents(ps.drop_first(), acc1);
        assert(acc.parents.push(ps[0]) + ps.drop_first() =~= acc.parents + ps);
    }
}

/// Round trip of the commit body: parsing the serialization of a
/// well-formed commit gives back its fields.
pub proof fn lemma_commit_round_trip(c: CommitV)
    requires
        commit_wf(c),
    ensures
        parse_commit_body(commit_body(c)) == Some(c),
{
    let init = commit_acc_init();
    let l1 = tree_tag() + c.tree_hash;
    let ps = parent_section(c.parents);
    let l3 = author_tag() + c.author;
    let l4 = committer_tag() + c.committer;
    let l5 = date_tag() + i64_dec_bytes(c.date as int);
    let ml = c.message + seq![0x0au8];
    let r1 = ps + (l3 + seq![0x0au8]) + (l4 + seq![0x0au8]) + (l5 + seq![0x0au8]) + seq![0x0au8]
        + ml;
    assert(commit_body(c) =~= (l1 + seq![0x0au8]) + r1);
    // the tree line
    assert forall|i: int| 0 <= i < l1.len() implies l1[i] != 0x0a by {
        if i >= tree_tag().len() {
            assert(l1[i] == c.tree_hash[i - tree_tag().len()]);
        }
    }
    lemma_scan_append(l1 + seq![0x0au8], r1, init);
    lemma_scan_line(l1, init);
    assert(l1.subrange(0, tree_tag().len() as int) =~= tree_tag());
    assert(l1.skip(tree_tag().len() as int) =~= c.tree_hash);
    let acc1 = apply_line(l1, init);
    assert(acc1 =~= (CommitAcc { tree_hash: c.tree_hash, ..init }));
    // the parent section
    let r2 = (l3 + seq![0x0au8]) + (l4 + seq![0x0au8]) + (l5 + seq![0x0au8]) + seq![0x0au8] + ml;
    assert(r1 =~= ps + r2);
    assert(ps.len() > 0 && ps.last() == 0x0a) by {
        if c.parents.len() == 0 {
            assert(ps =~= parent_tag() + none_word() + seq![0x0au8]);
        } else {
            lemma_parents_lines_last(c.parents);
        }
    }
    lemma_scan_append(ps, r2, acc1);
    let acc2 = scan_lines(ps, acc1);
    if c.parents.len() == 0 {
        let pline = parent_tag() + none_word();
        assert(ps =~= pline + seq![0x0au8]);
        assert forall|i: int| 0 <= i < pline.len() implies pline[i] != 0x0a by {}
        lemma_scan_line(pline, acc1);
        assert(pline[0] == 0x70);
        lemma_differs_not_prefix(pline, tree_tag(), 0);
        assert(pline.subrange(0, parent_tag().len() as int) =~= parent_tag());
        assert(pline.skip(parent_tag().len() as int) =~= none_word());
        assert(acc2 =~= acc1);
        assert(acc2.parents =~= c.parents);
    } else {
        lemma_scan_parents(c.parents, acc1);
        assert(acc2.parents =~= c.parents);
    }
    // the author line
    let r3 = (l4 + seq![0x0au8]) + (l5 + seq![0x0au8]) + seq![0x0au8] + ml;
    assert(r2 =~= (l3 + seq![0x0au8]) + r3);
    assert forall|i: int| 0 <= i < l3.len() implies l3[i] != 0x0a by {
        if i >= author_tag().len() {
            assert(l3[i] == c.author[i - author_tag().len()]);
        }
    }
    lemma_scan_append(l3 + seq![0x0au8], r3, acc2);
    lemma_scan_line(l3, acc2);
    assert(l3[0] == 0x61);
    lemma_differs_not_prefix(l3, tree_tag(), 0);
    lemma_differs_not_prefix(l3, parent_tag(), 0);
    assert(l3.subrange(0, author_tag().len() as int) =~= author_tag());
    assert(l3.skip(author_tag().len() as int) =~= c.author);
    let acc3 = apply_line(l3, acc2);
    assert(acc3 =~= (CommitAcc { author: c.author, ..acc2 }));
    // the committer line
    let r4 = (l5 + seq![0x0au8]) + seq![0x0au8] + ml;
    assert(r3 =~= (l4 + seq![0x0au8]) + r4);
    assert forall|i: int| 0 <= i < l4.len() implies l4[i] != 0x0a by {
        if i >= committer_tag().len() {
            assert(l4[i] == c.committer[i - committer_tag().len()]);
        }
    }
    lemma_scan_append(l4 + seq![0x0au8], r4, acc3);
    lemma_scan_line(l4, acc3);
    assert(l4[0] == 0x63);
    lemma_differs_not_prefix(l4, tree_tag(), 0);
    lemma_differs_not_prefix(l4, parent_tag(), 0);
    lemma_differs_not_prefix(l4, author_tag(), 0);
    assert(l4.subrange(0, committer_tag().len() as int) =~= committer_tag());
    assert(l4.skip(committer_tag().len() as int) =~= c.committer);
    let acc4 = apply_line(l4, acc3);
    assert(acc4 =~= (CommitAcc { committer: c.committer, ..acc3 }));
    // the date line
    let r5 = seq![0x0au8] + ml;
    assert(r4 =~= (l5 + seq![0x0au8]) + r5);
    crate::bytes_codec::lemma_dec_digits_wf((if c.date >= 0 {
        c.date as int
    } else {
        0 - c.date as int
    }) as nat);
    assert forall|i: int| 0 <= i < l5.len() implies l5[i] != 0x0a by {
        if i >= date_tag().len() {
            let d = i64_dec_bytes(c.date as int);
            assert(l5[i] == d[i - date_tag().len()]);
            if c.date >= 0 {
                assert(crate::bytes_codec::is_dec_digit(d[i - date_tag().len()]));
            } else {
                if i - date_tag().len() > 0 {
                    assert(d[i - date_tag().len()] == crate::bytes_codec::dec_digits(
                        (0 - c.date as int) as nat,
                    )[i - date_tag().len() - 1]);
                    assert(crate::bytes_codec::is_dec_digit(d[i - date_tag().len()]));
                }
            }
        }
    }
    lemma_scan_append(l5 + seq![0x0au8], r5, acc4);
    lemma_scan_line(l5, acc4);
    assert(l5[0] == 0x64);
    lemma_differs_not_prefix(l5, tree_tag(), 0);
    lemma_differs_not_prefix(l5, parent_tag(), 0);
    lemma_differs_not_prefix(l5, author_tag(), 0);
    lemma_differs_not_prefix(l5, committer_tag(), 0);
    assert(l5.subrange(0, date_tag().len() as int) =~= date_tag());
    assert(l5.skip(date_tag().len() as int) =~= i64_dec_bytes(c.date as int));
    let acc5 = apply_line(l5, acc4);
    assert(acc5 =~= (CommitAcc { date_bytes: i64_dec_bytes(c.date as int), ..acc4 }));
    // the separating empty line
    assert(r5 =~= (Seq::<u8>::empty() + seq![0x0au8]) + ml);
    lemma_scan_append(Seq::<u8>::empty() + seq![0x0au8], ml, acc5);
    lemma_scan_line(Seq::<u8>::empty(), acc5);
    assert(Seq::<u8>::empty() + seq![0x0au8] =~= seq![0x0au8]);
    let acc6 = apply_line(Seq::<u8>::empty(), acc5);
    assert(acc6 =~= acc5);
    // the message line
    lemma_scan_line(c.message, acc6);
    let acc7 = apply_line(c.message, acc6);
    if c.message.len() == 0 {
        assert(acc7.message =~= c.message);
    }
    assert(acc7 =~= (CommitAcc { message: c.message, ..acc6 }));
    // the scanned fields parse back to the commit
    assert(scan_lines(commit_body(c), init) == acc7);
    lemma_i64_dec_round_trip(c.date);
    assert(parse_commit_body(commit_body(c)) =~= Some(c));
}

/// A non-empty parent section ends with a newline.
proof fn lemma_parents_lines_last(ps: Seq<Seq<u8>>)
    requires
        ps.len() > 0,
    ensures
        parents_lines(ps).len() > 0,
        parents_lines(ps).last() == 0x0a,
    decreases ps.len(),
{
    if ps.drop_first().len() == 0 {
        assert(parents_lines(ps.drop_first()) =~= Seq::<u8>::empty());
        assert(parents_lines(ps) =~= parent_tag() + ps[0] + seq![0x0au8]);
    } else {
        lemma_parents_lines_last(ps.drop_first());
    }
}

} // verus!
