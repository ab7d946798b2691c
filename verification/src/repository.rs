//! Repository paths and abbreviated-hash resolution.
//!
//! A repository lives under `<root>/.nss/`. Objects are sharded by the
//! first two hex characters of their hash; an abbreviated hash of at
//! least six characters resolves against the file names of its shard
//! directory. Directory listing is the caller's concern: the resolution
//! logic here is a pure function of the hash and the listed names.

use crate::bytes_codec::{bytes_eq, clone_bytes, find_byte, lemma_lex_le_total, lemma_lex_le_transitive, lex_le, push_bytes};
use crate::error::Error;
use vstd::multiset::Multiset;
use vstd::prelude::*;
use vstd::string::StrSliceExecFns;
use vstd::string::StringExecFns;

verus! {

broadcast use vstd::seq_lib::group_to_multiset_ensures;

/// A copy of a string.
pub fn clone_string(s: &String) -> (r: String)
    ensures
        r@ == s@,
{
    s.clone()
}

/// Decides `a@ == b@`.
pub fn string_eq(a: &String, b: &String) -> (r: bool)
    ensures
        r == (a@ == b@),
{
    let r = String::eq(a, b);
    r
}

/// A typed handle on one of the repository's stores: the path of its
/// root file or directory.
#[derive(Debug)]
pub struct Repository {
    pub root: String,
}

impl Repository {
    pub fn new(root: String) -> (r: Self)
        ensures
            r.root == root,
    {
        Self { root }
    }
}

/// Splits a hex hash into its two-character shard directory and the
/// rest.
pub fn split_hash(hash: &str) -> (r: (&str, &str))
    requires
        hash@.len() >= 2,
    ensures
        r.0@ == hash@.subrange(0, 2),
        r.1@ == hash@.subrange(2, hash@.len() as int),
{
    let n = hash.unicode_len();
    let d = hash.substring_char(0, 2);
    let f = hash.substring_char(2, n);
    (d, f)
}

/// The shard directory and object file paths for a hash under `root`.
pub fn object_path(root: &str, hash: &str) -> (r: (String, String))
    requires
        hash@.len() >= 2,
    ensures
        r.0@ == root@ + "/.nss/objects/"@ + hash@.subrange(0, 2),
        r.1@ == root@ + "/.nss/objects/"@ + hash@.subrange(0, 2) + "/"@ + hash@.subrange(
            2,
            hash@.len() as int,
        ),
{
    let (d, f) = split_hash(hash);
    let dir = String::from_str(root).concat("/.nss/objects/").concat(d);
    let file = clone_string(&dir).concat("/").concat(f);
    (dir, file)
}

// ---------------------------------------------------------------------------
// Abbreviated-hash resolution
// ---------------------------------------------------------------------------

/// `sub` occurs in `s` starting at `at`.
pub open spec fn is_substring_at(s: Seq<char>, sub: Seq<char>, at: int) -> bool {
    0 <= at && at + sub.len() <= s.len() && s.subrange(at, at + sub.len()) == sub
}

/// `sub` occurs somewhere in `s`.
pub open spec fn contains_sub(s: Seq<char>, sub: Seq<char>) -> bool {
    exists|at: int| is_substring_at(s, sub, at)
}

/// The views of a list of names.
pub open spec fn name_views(ss: Seq<String>) -> Seq<Seq<char>> {
    ss.map_values(|x: String| x@)
}

/// How many names contain `sub`.
pub open spec fn match_count(names: Seq<Seq<char>>, sub: Seq<char>) -> nat
    decreases names.len(),
{
    if names.len() == 0 {
        0
    } else {
        match_count(names.drop_last(), sub) + (if contains_sub(names.last(), sub) {
            1nat
        } else {
            0nat
        })
    }
}

/// Decides whether `sub@` occurs in `s@`.
pub fn str_contains_sub(s: &str, sub: &str) -> (r: bool)
    ensures
        r == contains_sub(s@, sub@),
{
    let n = s.unicode_len();
    let m = sub.unicode_len();
    if m > n {
        proof {
            assert forall|at: int| !is_substring_at(s@, sub@, at) by {}
        }
        return false;
    }
    if m == 0 {
        proof {
            assert(s@.subrange(0, 0) =~= sub@);
            assert(is_substring_at(s@, sub@, 0));
        }
        return true;
    }
    let mut at: usize = 0;
    while at <= n - m
        invariant
            m <= n,
            n == s@.len(),
            m == sub@.len(),
            0 <= at <= n - m + 1,
            1 <= m,
            forall|a: int| 0 <= a < at ==> !is_substring_at(s@, sub@, a),
        decreases n - m + 1 - at,
    {
        let mut j: usize = 0;
        let mut all_eq = true;
        while j < m
            invariant
                0 <= j <= m,
                m <= n,
                n == s@.len(),
                m == sub@.len(),
                at + m <= n,
                all_eq ==> forall|t: int| 0 <= t < j ==> s@[at + t] == sub@[t],
                !all_eq ==> !is_substring_at(s@, sub@, at as int),
            decreases m - j,
        {
            if all_eq {
                let c1 = s.get_char(at + j);
                let c2 = sub.get_char(j);
                if c1 != c2 {
                    proof {
                        if is_substring_at(s@, sub@, at as int) {
                            assert(s@.subrange(at as int, at + m)[j as int] == sub@[j as int]);
                        }
                    }
                    all_eq = false;
                }
            }
            j += 1;
        }
        if all_eq {
            proof {
                assert(s@.subrange(at as int, at + m) =~= sub@);
                assert(is_substring_at(s@, sub@, at as int));
            }
            return true;
        }
        at += 1;
    }
    proof {
        assert forall|a: int| !is_substring_at(s@, sub@, a) by {
            if a > n - m {
            }
        }
    }
    false
}

/// Resolves an abbreviated hash against the names listed in its shard
/// directory. A prefix shorter than six characters is refused; a prefix
/// matching no name is not found; one matching more than one name is
/// ambiguous; otherwise the path of the single match is returned.
pub fn try_get_objects_path(root: &str, hash: &str, dir_files: &Vec<String>) -> (r: Result<
    String,
    Error,
>)
    ensures
        ({
            let names = name_views(dir_files@);
            let rest = hash@.subrange(2, hash@.len() as int);
            if hash@.len() < 6 {
                r == Err::<String, Error>(Error::LessObjectHash)
            } else {
                match r {
                    Ok(p) => match_count(names, rest) == 1 && exists|i: int|
                        0 <= i < names.len() && contains_sub(#[trigger] names[i], rest) && p@
                            == root@ + "/.nss/objects/"@ + hash@.subrange(0, 2) + "/"@ + names[i],
                    Err(e) => (e == Error::NotFoundObject && match_count(names, rest) == 0) || (e
                        == Error::AmbiguousHash && match_count(names, rest) >= 2),
                }
            }
        }),
{
    let n = hash.unicode_len();
    if n < 6 {
        return Err(Error::LessObjectHash);
    }
    let rest = hash.substring_char(2, n);
    let ghost names = name_views(dir_files@);
    let mut cnt: usize = 0;
    let mut first: usize = 0;
    let mut i: usize = 0;
    while i < dir_files.len()
        invariant
            0 <= i <= dir_files@.len(),
            names == name_views(dir_files@),
            rest@ == hash@.subrange(2, hash@.len() as int),
            cnt == match_count(names.take(i as int), rest@),
            cnt <= i,
            cnt > 0 ==> first < i && contains_sub(names[first as int], rest@),
        decreases dir_files@.len() - i,
    {
        let hit = str_contains_sub(&dir_files[i], rest);
        proof {
            assert(names.take(i + 1 as int).drop_last() =~= names.take(i as int));
            assert(names.take(i + 1 as int).last() == names[i as int]);
        }
        if hit {
            if cnt == 0 {
                first = i;
            }
            cnt += 1;
        }
        i += 1;
    }
    proof {
        assert(names.take(i as int) =~= names);
    }
    if cnt == 0 {
        Err(Error::NotFoundObject)
    } else if cnt >= 2 {
        Err(Error::AmbiguousHash)
    } else {
        let (dir, _) = object_path(root, hash);
        let p = dir.concat("/").concat(dir_files[first].as_str());
        Ok(p)
    }
}

// ---------------------------------------------------------------------------
// Properties of resolution
// ---------------------------------------------------------------------------

/// A name containing an extension of `sub` contains `sub`.
pub proof fn lemma_contains_of_extension(name: Seq<char>, sub: Seq<char>, ext: Seq<char>)
    requires
        sub.len() <= ext.len(),
        sub == ext.subrange(0, sub.len() as int),
        contains_sub(name, ext),
    ensures
        contains_sub(name, sub),
{
    let at = choose|at: int| is_substring_at(name, ext, at);
    assert(name.subrange(at, at + sub.len()) =~= sub);
    assert(is_substring_at(name, sub, at));
}

pub proof fn lemma_match_count_zero(names: Seq<Seq<char>>, sub: Seq<char>)
    requires
        forall|j: int| 0 <= j < names.len() ==> !contains_sub(#[trigger] names[j], sub),
    ensures
        match_count(names, sub) == 0,
    decreases names.len(),
{
    if names.len() > 0 {
        assert(!contains_sub(names[names.len() - 1], sub));
        assert forall|j: int| 0 <= j < names.len() - 1 implies !contains_sub(
            #[trigger] names.drop_last()[j],
            sub,
        ) by {
            assert(names.drop_last()[j] == names[j]);
        }
        lemma_match_count_zero(names.drop_last(), sub);
    }
}

pub proof fn lemma_match_count_one(names: Seq<Seq<char>>, sub: Seq<char>, i: int)
    requires
        0 <= i < names.len(),
        contains_sub(names[i], sub),
        forall|j: int| 0 <= j < names.len() && j != i ==> !contains_sub(#[trigger] names[j], sub),
    ensures
        match_count(names, sub) == 1,
    decreases names.len(),
{
    if i == names.len() - 1 {
        assert forall|j: int| 0 <= j < names.len() - 1 implies !contains_sub(
            #[trigger] names.drop_last()[j],
            sub,
        ) by {
            assert(names.drop_last()[j] == names[j]);
        }
        lemma_match_count_zero(names.drop_last(), sub);
    } else {
        assert(!contains_sub(names[names.len() - 1], sub));
        assert(names.drop_last()[i] == names[i]);
        assert forall|j: int| 0 <= j < names.len() - 1 && j != i implies !contains_sub(
            #[trigger] names.drop_last()[j],
            sub,
        ) by {
            assert(names.drop_last()[j] == names[j]);
        }
        lemma_match_count_one(names.drop_last(), sub, i);
    }
}

pub proof fn lemma_match_count_ge_one(names: Seq<Seq<char>>, sub: Seq<char>, i: int)
    requires
        0 <= i < names.len(),
        contains_sub(names[i], sub),
    ensures
        match_count(names, sub) >= 1,
    decreases names.len(),
{
    if i < names.len() - 1 {
        assert(names.drop_last()[i] == names[i]);
        lemma_match_count_ge_one(names.drop_last(), sub, i);
    }
}

pub proof fn lemma_match_count_ge_two(names: Seq<Seq<char>>, sub: Seq<char>, i: int, j: int)
    requires
        0 <= i < j < names.len(),
        contains_sub(names[i], sub),
        contains_sub(names[j], sub),
    ensures
        match_count(names, sub) >= 2,
    decreases names.len(),
{
    if j == names.len() - 1 {
        lemma_match_count_ge_one(names.drop_last(), sub, i);
        assert(names.drop_last()[i] == names[i]);
        lemma_match_count_ge_one(names.drop_last(), sub, i);
    } else {
        assert(names.drop_last()[i] == names[i]);
        assert(names.drop_last()[j] == names[j]);
        lemma_match_count_ge_two(names.drop_last(), sub, i, j);
    }
}

/// Prefix-resolution monotonicity: when an abbreviated hash resolves to
/// exactly the name at `i`, any extension of it that the same name still
/// contains resolves to that name alone.
pub proof fn lemma_prefix_resolution_monotone(
    names: Seq<Seq<char>>,
    sub: Seq<char>,
    ext: Seq<char>,
    i: int,
)
    requires
        0 <= i < names.len(),
        match_count(names, sub) == 1,
        contains_sub(names[i], sub),
        sub.len() <= ext.len(),
        sub == ext.subrange(0, sub.len() as int),
        contains_sub(names[i], ext),
    ensures
        match_count(names, ext) == 1,
        forall|j: int|
            0 <= j < names.len() && contains_sub(#[trigger] names[j], ext) ==> j == i,
{
    assert forall|j: int|
        0 <= j < names.len() && contains_sub(#[trigger] names[j], ext) implies j == i by {
        if j != i {
            lemma_contains_of_extension(names[j], sub, ext);
            if j < i {
                lemma_match_count_ge_two(names, sub, j, i);
            } else {
                lemma_match_count_ge_two(names, sub, i, j);
            }
        }
    }
    lemma_match_count_one(names, ext, i);
}


// ---------------------------------------------------------------------------
// Working-tree listings
// ---------------------------------------------------------------------------

/// The views of a list of byte paths.
pub open spec fn path_views(ps: Seq<Vec<u8>>) -> Seq<Seq<u8>> {
    ps.map_values(|p: Vec<u8>| p@)
}

/// Paths in ascending lexicographic order.
pub open spec fn paths_sorted(s: Seq<Seq<u8>>) -> bool {
    forall|i: int, j: int| 0 <= i < j < s.len() ==> lex_le(#[trigger] s[i], #[trigger] s[j])
}

/// Sorts byte paths ascending, preserving the multiset of paths.
#[verifier::rlimit(100)]
fn sort_paths(input: Vec<Vec<u8>>) -> (r: Vec<Vec<u8>>)
    ensures
        path_views(r@).to_multiset() == path_views(input@).to_multiset(),
        paths_sorted(path_views(r@)),
{
    let ghost orig = path_views(input@);
    let mut rem = input;
    let mut out: Vec<Vec<u8>> = Vec::new();
    while rem.len() > 0
        invariant
            path_views(out@).to_multiset().add(path_views(rem@).to_multiset())
                == orig.to_multiset(),
            paths_sorted(path_views(out@)),
            forall|i: int, j: int|
                0 <= i < out@.len() && 0 <= j < rem@.len() ==> lex_le(
                    path_views(out@)[i],
                    path_views(rem@)[j],
                ),
        decreases rem.len(),
    {
        let mut mi: usize = 0;
        let mut k: usize = 1;
        proof {
            lemma_lex_le_total(rem@[0]@, rem@[0]@);
        }
        while k < rem.len()
            invariant
                0 <= mi < rem@.len(),
                1 <= k <= rem@.len(),
                forall|j: int| 0 <= j < k ==> lex_le(rem@[mi as int]@, rem@[j]@),
            decreases rem@.len() - k,
        {
            if crate::bytes_codec::bytes_le(&rem[k], &rem[mi]) {
                proof {
                    assert forall|j: int| 0 <= j < k + 1 implies lex_le(
                        rem@[k as int]@,
                        rem@[j]@,
                    ) by {
                        if j < k {
                            lemma_lex_le_transitive(rem@[k as int]@, rem@[mi as int]@, rem@[j]@);
                        } else {
                            lemma_lex_le_total(rem@[k as int]@, rem@[k as int]@);
                        }
                    }
                }
                mi = k;
            } else {
                proof {
                    lemma_lex_le_total(rem@[mi as int]@, rem@[k as int]@);
                }
            }
            k += 1;
        }
        let ghost old_out = out@;
        let ghost old_rem = rem@;
        let e = rem.remove(mi);
        out.push(e);
        proof {
            let m = e@;
            assert(path_views(old_out).push(m) =~= path_views(out@));
            assert(path_views(old_rem).remove(mi as int) =~= path_views(rem@));
            let oms = path_views(old_out).to_multiset();
            let rms = path_views(old_rem).to_multiset();
            assert(path_views(old_rem)[mi as int] == m);
            assert(path_views(rem@).to_multiset() =~= rms.remove(m));
            assert(path_views(out@).to_multiset() =~= oms.insert(m));
            assert(path_views(old_rem).contains(m));
            assert(rms.count(m) >= 1);
            assert(oms.insert(m).add(rms.remove(m)) =~= oms.add(rms));
            assert forall|i: int, j: int|
                0 <= i < j < path_views(out@).len() implies lex_le(
                path_views(out@)[i],
                path_views(out@)[j],
            ) by {
                if j == path_views(out@).len() - 1 {
                    assert(path_views(out@)[i] == path_views(old_out)[i]);
                }
            }
            assert forall|i: int, j: int|
                0 <= i < out@.len() && 0 <= j < rem@.len() implies lex_le(
                path_views(out@)[i],
                path_views(rem@)[j],
            ) by {
                let x = path_views(rem@)[j];
                if j < mi {
                    assert(x == path_views(old_rem)[j]);
                } else {
                    assert(x == path_views(old_rem)[j + 1]);
                }
                if i < out@.len() - 1 {
                    assert(path_views(out@)[i] == path_views(old_out)[i]);
                } else {
                    assert(path_views(out@)[i] == m);
                }
            }
        }
    }
    proof {
        assert(path_views(rem@).to_multiset() =~= Multiset::<Seq<u8>>::empty());
        assert(path_views(out@).to_multiset() =~= orig.to_multiset());
    }
    out
}

/// A listing of working-tree paths, in ascending order.
pub fn get_all_paths(paths: Vec<Vec<u8>>) -> (r: Vec<Vec<u8>>)
    ensures
        path_views(r@).to_multiset() == path_views(paths@).to_multiset(),
        paths_sorted(path_views(r@)),
{
    sort_paths(paths)
}

// ---------------------------------------------------------------------------
// The ignore rules
// ---------------------------------------------------------------------------

/// A line of the ignore file is a rule when it is non-empty and free of
/// `#` (comments).
pub open spec fn line_kept(l: Seq<u8>) -> bool {
    l.len() > 0 && forall|i: int| 0 <= i < l.len() ==> l[i] != 0x23
}

/// The exclusion prefixes read from the ignore file's lines: each kept
/// line, as a path under `root`.
pub open spec fn line_prefixes(root: Seq<u8>, s: Seq<u8>) -> Seq<Seq<u8>>
    decreases s.len(),
{
    if s.len() == 0 {
        Seq::empty()
    } else {
        let nl = find_byte(s, 0x0a, 0);
        if nl < 0 || nl >= s.len() {
            if line_kept(s) {
                seq![root + seq![0x2fu8] + s]
            } else {
                Seq::empty()
            }
        } else {
            (if line_kept(s.subrange(0, nl)) {
                seq![root + seq![0x2fu8] + s.subrange(0, nl)]
            } else {
                Seq::<Seq<u8>>::empty()
            }) + line_prefixes(root, s.skip(nl + 1))
        }
    }
}

/// All exclusion prefixes: the ignore file's rules, and the always
/// excluded `.git` and `.nss` directories.
pub open spec fn ignore_prefix_list(root: Seq<u8>, content: Seq<u8>) -> Seq<Seq<u8>> {
    line_prefixes(root, content) + seq![
        root + seq![0x2fu8, 0x2eu8, 0x67u8, 0x69u8, 0x74u8],
        root + seq![0x2fu8, 0x2eu8, 0x6eu8, 0x73u8, 0x73u8],
    ]
}

/// `p` is the path `pre` itself or lies under it.
pub open spec fn path_excluded_by(p: Seq<u8>, pre: Seq<u8>) -> bool {
    pre.len() <= p.len() && p.subrange(0, pre.len() as int) == pre && (p.len() == pre.len()
        || p[pre.len() as int] == 0x2f)
}

pub open spec fn path_kept(p: Seq<u8>, pres: Seq<Seq<u8>>) -> bool {
    forall|j: int| 0 <= j < pres.len() ==> !path_excluded_by(p, #[trigger] pres[j])
}

/// The paths not excluded by any prefix, in order.
pub open spec fn keep_paths(ps: Seq<Seq<u8>>, pres: Seq<Seq<u8>>) -> Seq<Seq<u8>>
    decreases ps.len(),
{
    if ps.len() == 0 {
        Seq::empty()
    } else {
        let rest = keep_paths(ps.drop_last(), pres);
        if path_kept(ps.last(), pres) {
            rest.push(ps.last())
        } else {
            rest
        }
    }
}

/// Decides `path_excluded_by(p@, pre@)`.
fn is_excluded_by(p: &Vec<u8>, pre: &Vec<u8>) -> (r: bool)
    ensures
        r == path_excluded_by(p@, pre@),
{
    if pre.len() > p.len() {
        return false;
    }
    if !crate::commit::has_prefix(p.as_slice(), pre) {
        return false;
    }
    if p.len() == pre.len() {
        return true;
    }
    let b = p[pre.len()];
    b == 0x2fu8
}

/// Decides `path_kept(p@, path_views(pres@))`.
fn is_kept(p: &Vec<u8>, pres: &Vec<Vec<u8>>) -> (r: bool)
    ensures
        r == path_kept(p@, path_views(pres@)),
{
    let mut j: usize = 0;
    while j < pres.len()
        invariant
            0 <= j <= pres@.len(),
            forall|t: int| 0 <= t < j ==> !path_excluded_by(p@, #[trigger] path_views(pres@)[t]),
        decreases pres@.len() - j,
    {
        if is_excluded_by(p, &pres[j]) {
            assert(path_excluded_by(p@, path_views(pres@)[j as int]));
            return false;
        }
        j += 1;
    }
    true
}

/// Reads the ignore file's rules into exclusion prefixes under `root`.
fn build_ignore_prefixes(root: &[u8], content: &[u8]) -> (r: Vec<Vec<u8>>)
    ensures
        path_views(r@) == ignore_prefix_list(root@, content@),
{
    let mut out: Vec<Vec<u8>> = Vec::new();
    let mut off: usize = 0;
    proof {
        assert(content@.skip(0) =~= content@);
        assert(path_views(out@) + line_prefixes(root@, content@) =~= line_prefixes(
            root@,
            content@,
        ));
    }
    while off < content.len()
        invariant
            0 <= off <= content@.len(),
            line_prefixes(root@, content@) == path_views(out@) + line_prefixes(
                root@,
                content@.skip(off as int),
            ),
        decreases content@.len() - off,
    {
        let ghost tail = content@.skip(off as int);
        let nl_opt = crate::bytes_codec::find_byte_at(content, 0x0au8, off);
        let line_end = match nl_opt {
            Some(nl) => nl,
            None => content.len(),
        };
        proof {
            match nl_opt {
                Some(nl) => {
                    assert forall|j: int| 0 <= j < nl - off implies tail[j] != 0x0au8 by {
                        assert(tail[j] == content@[off + j]);
                    }
                    assert(tail[nl - off] == content@[nl as int]);
                    crate::bytes_codec::lemma_find_byte_hit(tail, 0x0au8, 0, nl - off);
                },
                None => {
                    assert forall|j: int| 0 <= j < tail.len() implies tail[j] != 0x0au8 by {
                        assert(tail[j] == content@[off + j]);
                    }
                    crate::bytes_codec::lemma_find_byte_miss(tail, 0x0au8, 0);
                },
            }
        }
        let line = vstd::slice::slice_subrange(content, off, line_end);
        proof {
            match nl_opt {
                Some(nl) => {
                    assert(line@ =~= tail.subrange(0, nl - off));
                },
                None => {
                    assert(line@ =~= tail);
                },
            }
        }
        // is the line a rule?
        let mut keep = line.len() > 0;
        let mut t: usize = 0;
        while t < line.len()
            invariant
                0 <= t <= line@.len(),
                keep == (line@.len() > 0 && forall|x: int| 0 <= x < t ==> line@[x] != 0x23),
            decreases line@.len() - t,
        {
            if line[t] == 0x23 {
                keep = false;
            }
            t += 1;
        }
        let ghost old_out = out@;
        if keep {
            let mut pre: Vec<u8> = Vec::new();
            push_bytes(&mut pre, root);
            pre.push(0x2fu8);
            push_bytes(&mut pre, line);
            proof {
                assert(pre@ =~= root@ + seq![0x2fu8] + line@);
            }
            out.push(pre);
            proof {
                assert(path_views(out@) =~= path_views(old_out).push(root@ + seq![0x2fu8] + line@));
            }
        }
        proof {
            match nl_opt {
                Some(nl) => {
                    assert(tail.skip(nl - off + 1) =~= content@.skip(nl + 1));
                    if keep {
                        assert(path_views(out@) + line_prefixes(root@, content@.skip(nl + 1)) =~= path_views(
                            old_out,
                        ) + (seq![root@ + seq![0x2fu8] + line@] + line_prefixes(
                            root@,
                            content@.skip(nl + 1),
                        )));
                    } else {
                        assert(path_views(out@) + line_prefixes(root@, content@.skip(nl + 1))
                            =~= path_views(old_out) + (Seq::<Seq<u8>>::empty() + line_prefixes(
                            root@,
                            content@.skip(nl + 1),
                        )));
                    }
                },
                None => {
                    assert(content@.skip(content@.len() as int) =~= Seq::<u8>::empty());
                    if keep {
                        assert(path_views(out@) + line_prefixes(
                            root@,
                            Seq::<u8>::empty(),
                        ) =~= path_views(old_out) + seq![root@ + seq![0x2fu8] + line@]);
                    } else {
                        assert(path_views(out@) + line_prefixes(
                            root@,
                            Seq::<u8>::empty(),
                        ) =~= path_views(old_out) + Seq::<Seq<u8>>::empty());
                    }
                },
            }
        }
        off = if line_end < content.len() {
            line_end + 1
        } else {
            content.len()
        };
    }
    proof {
        assert(content@.skip(off as int) =~= Seq::<u8>::empty());
        assert(path_views(out@) =~= line_prefixes(root@, content@));
    }
    let mut git: Vec<u8> = Vec::new();
    push_bytes(&mut git, root);
    git.push(0x2fu8);
    git.push(0x2eu8);
    git.push(0x67u8);
    git.push(0x69u8);
    git.push(0x74u8);
    let mut nss: Vec<u8> = Vec::new();
    push_bytes(&mut nss, root);
    nss.push(0x2fu8);
    nss.push(0x2eu8);
    nss.push(0x6eu8);
    nss.push(0x73u8);
    nss.push(0x73u8);
    let ghost git_at = git@;
    let ghost nss_at = nss@;
    proof {
        assert(git_at =~= root@ + seq![0x2fu8, 0x2eu8, 0x67u8, 0x69u8, 0x74u8]);
        assert(nss_at =~= root@ + seq![0x2fu8, 0x2eu8, 0x6eu8, 0x73u8, 0x73u8]);
    }
    out.push(git);
    out.push(nss);
    proof {
        assert(path_views(out@) =~= ignore_prefix_list(root@, content@));
    }
    out
}

/// The working-tree paths that survive the ignore rules, in ascending
/// order: the rules are the ignore file's lines, plus the `.git` and
/// `.nss` directories, each excluding its own subtree under `root`.
pub fn get_all_paths_ignore(root: &[u8], paths: Vec<Vec<u8>>, ignore_content: &[u8]) -> (r: Vec<
    Vec<u8>,
>)
    ensures
        path_views(r@).to_multiset() == keep_paths(
            path_views(paths@),
            ignore_prefix_list(root@, ignore_content@),
        ).to_multiset(),
        paths_sorted(path_views(r@)),
{
    let pres = build_ignore_prefixes(root, ignore_content);
    let ghost pvs = path_views(pres@);
    let mut kept: Vec<Vec<u8>> = Vec::new();
    let mut i: usize = 0;
    while i < paths.len()
        invariant
            0 <= i <= paths@.len(),
            pvs == path_views(pres@),
            pvs == ignore_prefix_list(root@, ignore_content@),
            path_views(kept@) == keep_paths(path_views(paths@).take(i as int), pvs),
        decreases paths@.len() - i,
    {
        let keep = is_kept(&paths[i], &pres);
        let ghost all = path_views(paths@);
        if keep {
            let p = clone_bytes(&paths[i]);
            let ghost old_kept = kept@;
            kept.push(p);
            proof {
                assert(path_views(kept@) =~= path_views(old_kept).push(all[i as int]));
            }
        }
        proof {
            assert(all.take(i + 1 as int).drop_last() =~= all.take(i as int));
            assert(all.take(i + 1 as int).last() == all[i as int]);
        }
        i += 1;
    }
    proof {
        assert(path_views(paths@).take(i as int) =~= path_views(paths@));
    }
    sort_paths(kept)
}

} // verus!
