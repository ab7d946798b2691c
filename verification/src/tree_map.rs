//! Tree assembly: grouping the index's flat file list into nested
//! directories. The result lists each directory with its children —
//! the files directly in it and its immediate subdirectories — deepest
//! directories first, so a caller can hash children before parents.

use crate::bytes_codec::{bytes_eq, clone_bytes, push_bytes};
use crate::error::Error;
use crate::index::Index;
use crate::repository::path_views;
use vstd::prelude::*;

verus! {

broadcast use vstd::seq_lib::group_to_multiset_ensures;

/// The index of the last `/` in a path, or -1.
pub open spec fn last_slash(p: Seq<u8>) -> int
    decreases p.len(),
{
    if p.len() == 0 {
        -1
    } else if p.last() == 0x2f {
        p.len() - 1
    } else {
        last_slash(p.drop_last())
    }
}

/// The directory containing `p`: everything before the last `/`, or
/// nothing when there is none.
pub open spec fn parent_of(p: Seq<u8>) -> Seq<u8> {
    if last_slash(p) < 0 {
        Seq::empty()
    } else {
        p.take(last_slash(p))
    }
}

/// How many `/` bytes a path holds: its depth.
pub open spec fn slash_count(p: Seq<u8>) -> nat
    decreases p.len(),
{
    if p.len() == 0 {
        0
    } else {
        slash_count(p.drop_last()) + (if p.last() == 0x2f {
            1nat
        } else {
            0nat
        })
    }
}

proof fn lemma_last_slash_pin(p: Seq<u8>, j: int)
    requires
        0 <= j < p.len(),
        p[j] == 0x2f,
        forall|t: int| j < t < p.len() ==> p[t] != 0x2f,
    ensures
        last_slash(p) == j,
    decreases p.len(),
{
    if j < p.len() - 1 {
        assert(p[p.len() - 1] != 0x2f);
        assert forall|t: int| j < t < p.len() - 1 implies p.drop_last()[t] != 0x2f by {
            assert(p.drop_last()[t] == p[t]);
        }
        assert(p.drop_last()[j] == p[j]);
        lemma_last_slash_pin(p.drop_last(), j);
    }
}

proof fn lemma_last_slash_none(p: Seq<u8>)
    requires
        forall|t: int| 0 <= t < p.len() ==> p[t] != 0x2f,
    ensures
        last_slash(p) == -1,
    decreases p.len(),
{
    if p.len() > 0 {
        assert(p[p.len() - 1] != 0x2f);
        assert forall|t: int| 0 <= t < p.len() - 1 implies p.drop_last()[t] != 0x2f by {
            assert(p.drop_last()[t] == p[t]);
        }
        lemma_last_slash_none(p.drop_last());
    }
}

proof fn lemma_last_slash_range(p: Seq<u8>)
    ensures
        -1 <= last_slash(p) < p.len(),
        last_slash(p) >= 0 ==> p[last_slash(p)] == 0x2f,
        forall|t: int| last_slash(p) < t < p.len() ==> p[t] != 0x2f,
    decreases p.len(),
{
    if p.len() > 0 && p.last() != 0x2f {
        lemma_last_slash_range(p.drop_last());
        if last_slash(p.drop_last()) >= 0 {
            assert(p.drop_last()[last_slash(p.drop_last())] == p[last_slash(p.drop_last())]);
        }
        assert forall|t: int| last_slash(p) < t < p.len() implies p[t] != 0x2f by {
            if t < p.len() - 1 {
                assert(p.drop_last()[t] == p[t]);
            }
        }
    }
}

/// Cutting at the last slash steps down through every slash position.
proof fn lemma_parent_cut(p: Seq<u8>, d: Seq<u8>)
    requires
        d == p.take(d.len() as int),
        d.len() < p.len(),
        p[d.len() as int] == 0x2f,
        last_slash(d) >= 0,
    ensures
        parent_of(d) == p.take(last_slash(d)),
        parent_of(d).len() == last_slash(d),
        p[last_slash(d)] == 0x2f,
        forall|j: int| last_slash(d) < j < d.len() ==> p[j] != 0x2f,
{
    lemma_last_slash_range(d);
    assert(parent_of(d) =~= p.take(last_slash(d)));
    assert(p[last_slash(d)] == d[last_slash(d)]);
    assert forall|j: int| last_slash(d) < j < d.len() implies p[j] != 0x2f by {
        assert(p[j] == d[j]);
    }
}

/// The containing directory of `p@`.
pub fn parent_bytes(p: &[u8]) -> (r: Vec<u8>)
    ensures
        r@ == parent_of(p@),
{
    let mut j: usize = p.len();
    while j > 0
        invariant
            0 <= j <= p@.len(),
            forall|t: int| j <= t < p@.len() ==> p@[t] != 0x2f,
        decreases j,
    {
        j -= 1;
        if p[j] == 0x2f {
            proof {
                lemma_last_slash_pin(p@, j as int);
            }
            let r = vstd::slice::slice_to_vec(vstd::slice::slice_subrange(p, 0, j));
            proof {
                assert(r@ =~= parent_of(p@));
            }
            return r;
        }
    }
    proof {
        lemma_last_slash_none(p@);
    }
    let r: Vec<u8> = Vec::new();
    proof {
        assert(r@ =~= parent_of(p@));
    }
    r
}

/// The depth of `p@`.
pub fn slash_count_of(p: &Vec<u8>) -> (r: usize)
    ensures
        r == slash_count(p@),
{
    let mut cnt: usize = 0;
    let mut i: usize = 0;
    while i < p.len()
        invariant
            0 <= i <= p@.len(),
            cnt == slash_count(p@.take(i as int)),
            cnt <= i,
        decreases p@.len() - i,
    {
        proof {
            assert(p@.take(i + 1 as int).drop_last() =~= p@.take(i as int));
            assert(p@.take(i + 1 as int).last() == p@[i as int]);
        }
        if p[i] == 0x2f {
            cnt += 1;
        }
        i += 1;
    }
    proof {
        assert(p@.take(i as int) =~= p@);
    }
    cnt
}

/// Whether the list holds the path.
fn contains_path(v: &Vec<Vec<u8>>, p: &Vec<u8>) -> (r: bool)
    ensures
        r == path_views(v@).contains(p@),
{
    let mut i: usize = 0;
    while i < v.len()
        invariant
            0 <= i <= v@.len(),
            forall|t: int| 0 <= t < i ==> path_views(v@)[t] != p@,
        decreases v@.len() - i,
    {
        if bytes_eq(&v[i], p) {
            assert(path_views(v@)[i as int] == p@);
            return true;
        }
        i += 1;
    }
    proof {
        if path_views(v@).contains(p@) {
            let w = choose|w: int| 0 <= w < path_views(v@).len() && path_views(v@)[w] == p@;
            assert(path_views(v@)[w] != p@);
        }
    }
    false
}

/// The directory layout of an index: each directory with its children,
/// deepest first.
pub type TreeMap = Vec<(Vec<u8>, Vec<Vec<u8>>)>;

/// The directory paths of a layout.
pub open spec fn dir_views(tm: Seq<(Vec<u8>, Vec<Vec<u8>>)>) -> Seq<Seq<u8>> {
    tm.map_values(|e: (Vec<u8>, Vec<Vec<u8>>)| e.0@)
}

/// The absolute path of a staged file.
pub open spec fn full_path(repo_path: Seq<u8>, name: Seq<u8>) -> Seq<u8> {
    repo_path + seq![0x2fu8] + name
}

/// What a correct layout looks like: each directory once, deepest
/// first; every listed child has its directory as parent and is itself
/// a staged file or a listed directory, each child listed once; every
/// staged file is listed under its parent directory; every listed
/// directory is listed among its own parent's children; every
/// directory on the path from the root to a staged file is listed, the
/// root included.
pub open spec fn tree_map_ok(
    tm: Seq<(Vec<u8>, Vec<Vec<u8>>)>,
    repo_path: Seq<u8>,
    filenames: Seq<Seq<u8>>,
) -> bool {
    &&& forall|a: int, b: int| 0 <= a < b < tm.len() ==> dir_views(tm)[a] != dir_views(tm)[b]
    &&& forall|a: int, b: int|
        0 <= a < b < tm.len() ==> slash_count(dir_views(tm)[a]) >= slash_count(dir_views(tm)[b])
    &&& forall|i: int, c: int|
        0 <= i < tm.len() && 0 <= c < tm[i].1@.len() ==> parent_of((#[trigger] tm[i].1@[c])@)
            == tm[i].0@
    &&& forall|i: int, c1: int, c2: int|
        0 <= i < tm.len() && 0 <= c1 < c2 < tm[i].1@.len() ==> (#[trigger] tm[i].1@[c1])@ != (
        #[trigger] tm[i].1@[c2])@
    &&& forall|i: int, c: int|
        0 <= i < tm.len() && 0 <= c < tm[i].1@.len() ==> (exists|f: int|
            0 <= f < filenames.len() && (#[trigger] tm[i].1@[c])@ == full_path(
                repo_path,
                #[trigger] filenames[f],
            )) || dir_views(tm).contains(tm[i].1@[c]@)
    &&& forall|f: int|
        0 <= f < filenames.len() ==> exists|i: int|
            0 <= i < tm.len() && (#[trigger] tm[i]).0@ == parent_of(
                full_path(repo_path, #[trigger] filenames[f]),
            ) && path_views(tm[i].1@).contains(full_path(repo_path, filenames[f]))
    &&& forall|a: int, b: int|
        #![trigger dir_views(tm)[a], dir_views(tm)[b]]
        0 <= a < tm.len() && 0 <= b < tm.len() && parent_of(dir_views(tm)[b]) == dir_views(
            tm,
        )[a] ==> path_views(tm[a].1@).contains(dir_views(tm)[b])
    &&& forall|f: int, j: int|
        #![trigger full_path(repo_path, filenames[f]).take(j)]
        0 <= f < filenames.len() && repo_path.len() <= j < full_path(
            repo_path,
            filenames[f],
        ).len() && full_path(repo_path, filenames[f])[j] == 0x2f ==> dir_views(tm).contains(
            full_path(repo_path, filenames[f]).take(j),
        )
    &&& filenames.len() > 0 ==> dir_views(tm).contains(repo_path)
}

/// The staged file names of an index.
pub open spec fn meta_filenames(ms: Seq<crate::metadata::FileMeta>) -> Seq<Seq<u8>> {
    ms.map_values(|m: crate::metadata::FileMeta| m.filename@)
}

/// Groups the index's files into directories under `repo_path`.
#[verifier::rlimit(100)]
pub fn index_2_tree_map(repo_path: &[u8], index: &Index) -> (r: Result<TreeMap, Error>)
    ensures
        match r {
            Ok(tm) => tree_map_ok(tm@, repo_path@, meta_filenames(index.filemetas@)),
            Err(_) => false,
        },
{
    let n = index.filemetas.len();
    // the staged files' absolute paths and their parent directories
    let mut fulls: Vec<Vec<u8>> = Vec::new();
    let mut parents: Vec<Vec<u8>> = Vec::new();
    let mut i: usize = 0;
    while i < n
        invariant
            0 <= i <= n,
            n == index.filemetas@.len(),
            fulls@.len() == i,
            parents@.len() == i,
            forall|t: int|
                0 <= t < i ==> (#[trigger] fulls@[t])@ == repo_path@ + seq![0x2fu8]
                    + index.filemetas@[t].filename@,
            forall|t: int| 0 <= t < i ==> (#[trigger] parents@[t])@ == parent_of(fulls@[t]@),
        decreases n - i,
    {
        let mut full: Vec<u8> = Vec::new();
        push_bytes(&mut full, repo_path);
        full.push(0x2fu8);
        push_bytes(&mut full, index.filemetas[i].filename.as_slice());
        proof {
            assert(full@ =~= repo_path@ + seq![0x2fu8] + index.filemetas@[i as int].filename@);
        }
        let par = parent_bytes(full.as_slice());
        fulls.push(full);
        parents.push(par);
        i += 1;
    }
    // every directory: each file's parent and its ancestors, and the root
    let mut dirs: Vec<Vec<u8>> = Vec::new();
    let mut i2: usize = 0;
    while i2 < n
        invariant
            0 <= i2 <= n,
            n == index.filemetas@.len(),
            fulls@.len() == n,
            forall|t: int|
                0 <= t < n ==> (#[trigger] fulls@[t])@ == repo_path@ + seq![0x2fu8]
                    + index.filemetas@[t].filename@,
            forall|a: int, b: int|
                0 <= a < b < dirs@.len() ==> path_views(dirs@)[a] != path_views(dirs@)[b],
            forall|t: int|
                0 <= t < i2 ==> path_views(dirs@).contains(parent_of((#[trigger] fulls@[t])@)),
            forall|t: int, j: int|
                #![trigger (fulls@[t])@.take(j)]
                0 <= t < i2 && repo_path@.len() <= j < fulls@[t]@.len() && fulls@[t]@[j] == 0x2f
                    ==> path_views(dirs@).contains(fulls@[t]@.take(j)),
            i2 > 0 ==> path_views(dirs@).contains(repo_path@),
        decreases n - i2,
    {
        let repo_vec = clone_vec_u8_ref(repo_path);
        if !contains_path(&dirs, &repo_vec) {
            let ghost before = path_views(dirs@);
            dirs.push(repo_vec);
            proof {
                assert(path_views(dirs@) =~= before.push(repo_path@));
                assert(path_views(dirs@)[path_views(dirs@).len() - 1] == repo_path@);
                assert forall|t: int|
                    0 <= t < i2 implies path_views(dirs@).contains(
                    parent_of((#[trigger] fulls@[t])@),
                ) by {
                    let w = choose|w: int|
                        0 <= w < before.len() && before[w] == parent_of(fulls@[t]@);
                    assert(path_views(dirs@)[w] == parent_of(fulls@[t]@));
                }
                assert forall|t: int, j: int|
                    #![trigger (fulls@[t])@.take(j)]
                    0 <= t < i2 && repo_path@.len() <= j < fulls@[t]@.len() && fulls@[t]@[j]
                        == 0x2f implies path_views(dirs@).contains(fulls@[t]@.take(j)) by {
                    let w = choose|w: int|
                        0 <= w < before.len() && before[w] == fulls@[t]@.take(j);
                    assert(path_views(dirs@)[w] == fulls@[t]@.take(j));
                }
            }
        } else {
            proof {
                let w = choose|w: int|
                    0 <= w < path_views(dirs@).len() && path_views(dirs@)[w] == repo_path@;
            }
        }
        let mut d = parent_bytes(fulls[i2].as_slice());
        let ghost full_v = fulls@[i2 as int]@;
        let ghost target = parent_of(full_v);
        proof {
            // the joint slash after the root bounds the last slash below
            assert(full_v == repo_path@ + seq![0x2fu8] + index.filemetas@[i2 as int].filename@);
            assert(full_v.take(repo_path@.len() as int) =~= repo_path@);
            assert(full_v[repo_path@.len() as int] == 0x2f);
            lemma_last_slash_range(full_v);
            if last_slash(full_v) < repo_path@.len() {
                assert(full_v[repo_path@.len() as int] != 0x2f);
            }
            assert(last_slash(full_v) >= repo_path@.len());
            assert(d@ == full_v.take(d@.len() as int));
            assert(d@.len() == last_slash(full_v));
            assert(full_v[d@.len() as int] == 0x2f);
        }
        loop
            invariant_except_break
                d@ == full_v.take(d@.len() as int),
                d@.len() < full_v.len(),
                full_v[d@.len() as int] == 0x2f,
                repo_path@.len() <= d@.len(),
                d@ == target || path_views(dirs@).contains(target),
                forall|j: int|
                    #![trigger full_v.take(j)]
                    d@.len() < j < full_v.len() && full_v[j] == 0x2f ==> path_views(
                        dirs@,
                    ).contains(full_v.take(j)),
            invariant
                0 <= i2 < n,
                n == fulls@.len(),
                full_v == fulls@[i2 as int]@,
                full_v.take(repo_path@.len() as int) == repo_path@,
                repo_path@.len() < full_v.len(),
                full_v[repo_path@.len() as int] == 0x2f,
                forall|a: int, b: int|
                    0 <= a < b < dirs@.len() ==> path_views(dirs@)[a] != path_views(dirs@)[b],
                path_views(dirs@).contains(repo_path@),
                forall|t: int|
                    0 <= t < i2 ==> path_views(dirs@).contains(parent_of((#[trigger] fulls@[t])@)),
                forall|t: int, j: int|
                    #![trigger (fulls@[t])@.take(j)]
                    0 <= t < i2 && repo_path@.len() <= j < fulls@[t]@.len() && fulls@[t]@[j]
                        == 0x2f ==> path_views(dirs@).contains(fulls@[t]@.take(j)),
            ensures
                path_views(dirs@).contains(target),
                forall|j: int|
                    #![trigger full_v.take(j)]
                    repo_path@.len() <= j < full_v.len() && full_v[j] == 0x2f ==> path_views(
                        dirs@,
                    ).contains(full_v.take(j)),
            decreases d@.len(),
        {
            let repo_vec2 = clone_vec_u8_ref(repo_path);
            if bytes_eq(&d, &repo_vec2) {
                proof {
                    assert forall|j: int|
                        #![trigger full_v.take(j)]
                        repo_path@.len() <= j < full_v.len() && full_v[j]
                            == 0x2f implies path_views(dirs@).contains(full_v.take(j)) by {
                        if j == d@.len() {
                            assert(full_v.take(j) == repo_path@);
                        }
                    }
                    if d@ == target {
                        assert(path_views(dirs@).contains(target));
                    }
                }
                break ;
            }
            proof {
                if d@.len() == repo_path@.len() {
                    assert(d@ =~= repo_path@);
                }
                assert(d@.len() > repo_path@.len());
            }
            if !contains_path(&dirs, &d) {
                let ghost before = path_views(dirs@);
                let dc = clone_bytes(&d);
                dirs.push(dc);
                proof {
                    assert(path_views(dirs@) =~= before.push(d@));
                    assert(path_views(dirs@)[path_views(dirs@).len() - 1] == d@);
                    assert forall|t: int|
                        0 <= t < i2 implies path_views(dirs@).contains(
                        parent_of((#[trigger] fulls@[t])@),
                    ) by {
                        let w = choose|w: int|
                            0 <= w < before.len() && before[w] == parent_of(fulls@[t]@);
                        assert(path_views(dirs@)[w] == parent_of(fulls@[t]@));
                    }
                    assert forall|t: int, j: int|
                        #![trigger (fulls@[t])@.take(j)]
                        0 <= t < i2 && repo_path@.len() <= j < fulls@[t]@.len() && fulls@[t]@[j]
                            == 0x2f implies path_views(dirs@).contains(fulls@[t]@.take(j)) by {
                        let w = choose|w: int|
                            0 <= w < before.len() && before[w] == fulls@[t]@.take(j);
                        assert(path_views(dirs@)[w] == fulls@[t]@.take(j));
                    }
                    assert forall|j: int|
                        #![trigger full_v.take(j)]
                        d@.len() < j < full_v.len() && full_v[j] == 0x2f implies path_views(
                        dirs@,
                    ).contains(full_v.take(j)) by {
                        let w = choose|w: int|
                            0 <= w < before.len() && before[w] == full_v.take(j);
                        assert(path_views(dirs@)[w] == full_v.take(j));
                    }
                    let w0 = choose|w0: int| 0 <= w0 < before.len() && before[w0] == repo_path@;
                    assert(path_views(dirs@)[w0] == repo_path@);
                    if before.contains(target) {
                        let wt = choose|wt: int| 0 <= wt < before.len() && before[wt] == target;
                        assert(path_views(dirs@)[wt] == target);
                    }
                }
            } else {
                proof {
                    let w = choose|w: int|
                        0 <= w < path_views(dirs@).len() && path_views(dirs@)[w] == d@;
                }
            }
            proof {
                assert(path_views(dirs@).contains(d@));
            }
            let nd = parent_bytes(d.as_slice());
            proof {
                // the cut below the root slash keeps every invariant
                lemma_last_slash_range(d@);
                assert(repo_path@.len() < d@.len());
                assert(d@ == full_v.take(d@.len() as int));
                assert(full_v.take(d@.len() as int)[repo_path@.len() as int]
                    == full_v[repo_path@.len() as int]);
                assert(d@[repo_path@.len() as int] == full_v[repo_path@.len() as int]);
                if last_slash(d@) < repo_path@.len() {
                    assert(d@[repo_path@.len() as int] != 0x2f);
                }
                assert(last_slash(d@) >= repo_path@.len());
                lemma_parent_cut(full_v, d@);
                assert(nd@ == full_v.take(nd@.len() as int));
                assert(full_v[nd@.len() as int] == 0x2f);
                assert forall|j: int|
                    #![trigger full_v.take(j)]
                    nd@.len() < j < full_v.len() && full_v[j] == 0x2f implies path_views(
                    dirs@,
                ).contains(full_v.take(j)) by {
                    if j == d@.len() {
                        assert(full_v.take(j) == d@);
                    }
                }
            }
            d = nd;
        }
        proof {
            assert forall|t: int, j: int|
                #![trigger (fulls@[t])@.take(j)]
                0 <= t < i2 + 1 && repo_path@.len() <= j < fulls@[t]@.len() && fulls@[t]@[j]
                    == 0x2f implies path_views(dirs@).contains(fulls@[t]@.take(j)) by {
                if t == i2 {
                    assert(fulls@[t]@ == full_v);
                }
            }
        }
        i2 += 1;
    }
    let ghost dvs = path_views(dirs@);
    // deepest directories first
    let sorted_dirs = sort_dirs_by_depth(dirs);
    let ghost svs = path_views(sorted_dirs@);
    proof {
        lemma_distinct_by_multiset(dvs, svs);
        assert forall|t: int|
            0 <= t < n implies svs.contains(parent_of((#[trigger] fulls@[t])@)) by {
            if n > 0 {
                lemma_contains_by_multiset(dvs, svs, parent_of(fulls@[t]@));
            }
        }
        assert forall|t: int, j: int|
            #![trigger (fulls@[t])@.take(j)]
            0 <= t < n && repo_path@.len() <= j < fulls@[t]@.len() && fulls@[t]@[j]
                == 0x2f implies svs.contains(fulls@[t]@.take(j)) by {
            lemma_contains_by_multiset(dvs, svs, fulls@[t]@.take(j));
        }
        if n > 0 {
            lemma_contains_by_multiset(dvs, svs, repo_path@);
        }
    }
    // each directory's children: its files and immediate subdirectories,
    // each once
    let mut tm: TreeMap = Vec::new();
    let mut di: usize = 0;
    while di < sorted_dirs.len()
        invariant
            0 <= di <= sorted_dirs@.len(),
            svs == path_views(sorted_dirs@),
            n == index.filemetas@.len(),
            fulls@.len() == n,
            parents@.len() == n,
            forall|t: int|
                0 <= t < n ==> (#[trigger] fulls@[t])@ == repo_path@ + seq![0x2fu8]
                    + index.filemetas@[t].filename@,
            forall|t: int| 0 <= t < n ==> (#[trigger] parents@[t])@ == parent_of(fulls@[t]@),
            tm@.len() == di,
            forall|t: int| 0 <= t < di ==> (#[trigger] tm@[t]).0@ == svs[t],
            forall|t: int, c: int|
                0 <= t < di && 0 <= c < tm@[t].1@.len() ==> parent_of(
                    (#[trigger] tm@[t].1@[c])@,
                ) == tm@[t].0@,
            forall|t: int, c1: int, c2: int|
                0 <= t < di && 0 <= c1 < c2 < tm@[t].1@.len() ==> (#[trigger] tm@[t].1@[c1])@ != (
                #[trigger] tm@[t].1@[c2])@,
            forall|t: int, c: int|
                0 <= t < di && 0 <= c < tm@[t].1@.len() ==> (exists|f2: int|
                    0 <= f2 < n && ((#[trigger] tm@[t].1@[c])@) == (#[trigger] fulls@[f2])@)
                    || svs.contains(tm@[t].1@[c]@),
            forall|t: int, f: int|
                0 <= t < di && 0 <= f < n && parent_of((#[trigger] fulls@[f])@) == svs[t]
                    ==> path_views((#[trigger] tm@[t]).1@).contains(fulls@[f]@),
            forall|t: int, b: int|
                0 <= t < di && 0 <= b < svs.len() && parent_of(#[trigger] svs[b]) == svs[t]
                    ==> path_views((#[trigger] tm@[t]).1@).contains(svs[b]),
        decreases sorted_dirs@.len() - di,
    {
        let mut children: Vec<Vec<u8>> = Vec::new();
        let mut f: usize = 0;
        while f < n
            invariant
                0 <= f <= n,
                di < sorted_dirs@.len(),
                svs == path_views(sorted_dirs@),
                n == fulls@.len(),
                parents@.len() == n,
                forall|t: int| 0 <= t < n ==> (#[trigger] parents@[t])@ == parent_of(fulls@[t]@),
                forall|c: int|
                    0 <= c < children@.len() ==> parent_of((#[trigger] children@[c])@)
                        == svs[di as int],
                forall|c1: int, c2: int|
                    0 <= c1 < c2 < children@.len() ==> (#[trigger] children@[c1])@ != (
                    #[trigger] children@[c2])@,
                forall|c: int|
                    0 <= c < children@.len() ==> exists|f2: int|
                        0 <= f2 < n && ((#[trigger] children@[c])@) == (#[trigger] fulls@[f2])@,
                forall|t: int|
                    0 <= t < f && parent_of((#[trigger] fulls@[t])@) == svs[di as int]
                        ==> path_views(children@).contains(fulls@[t]@),
            decreases n - f,
        {
            if bytes_eq(&parents[f], &sorted_dirs[di]) {
                let fc = clone_bytes(&fulls[f]);
                if !contains_path(&children, &fc) {
                    let ghost before = path_views(children@);
                    children.push(fc);
                    proof {
                        assert(path_views(children@) =~= before.push(fulls@[f as int]@));
                        assert(path_views(children@)[path_views(children@).len() - 1]
                            == fulls@[f as int]@);
                        assert(parent_of(fulls@[f as int]@) == svs[di as int]);
                        assert forall|c1: int, c2: int|
                            0 <= c1 < c2 < children@.len() implies (#[trigger] children@[c1])@
                            != (#[trigger] children@[c2])@ by {
                            if c2 == children@.len() - 1 {
                                if (children@[c1])@ == fulls@[f as int]@ {
                                    assert(before[c1] == fulls@[f as int]@);
                                    assert(before.contains(fulls@[f as int]@));
                                }
                            }
                        }
                        assert forall|c: int|
                            0 <= c < children@.len() implies exists|f2: int|
                                0 <= f2 < n && ((#[trigger] children@[c])@) == (
                                #[trigger] fulls@[f2])@ by {
                            if c == children@.len() - 1 {
                                assert((children@[c])@ == (fulls@[f as int])@);
                            }
                        }
                        assert forall|t: int|
                            0 <= t < f + 1 && parent_of((#[trigger] fulls@[t])@)
                                == svs[di as int] implies path_views(children@).contains(
                            fulls@[t]@,
                        ) by {
                            if t < f {
                                let w = choose|w: int|
                                    0 <= w < before.len() && before[w] == fulls@[t]@;
                                assert(path_views(children@)[w] == fulls@[t]@);
                            }
                        }
                    }
                } else {
                    proof {
                        assert forall|t: int|
                            0 <= t < f + 1 && parent_of((#[trigger] fulls@[t])@)
                                == svs[di as int] implies path_views(children@).contains(
                            fulls@[t]@,
                        ) by {}
                    }
                }
            } else {
                proof {
                    assert forall|t: int|
                        0 <= t < f + 1 && parent_of((#[trigger] fulls@[t])@)
                            == svs[di as int] implies path_views(children@).contains(
                        fulls@[t]@,
                    ) by {}
                }
            }
            f += 1;
        }
        let mut d2: usize = 0;
        while d2 < sorted_dirs.len()
            invariant
                0 <= d2 <= sorted_dirs@.len(),
                di < sorted_dirs@.len(),
                svs == path_views(sorted_dirs@),
                n == fulls@.len(),
                forall|c: int|
                    0 <= c < children@.len() ==> parent_of((#[trigger] children@[c])@)
                        == svs[di as int],
                forall|c1: int, c2: int|
                    0 <= c1 < c2 < children@.len() ==> (#[trigger] children@[c1])@ != (
                    #[trigger] children@[c2])@,
                forall|c: int|
                    0 <= c < children@.len() ==> (exists|f2: int|
                        0 <= f2 < n && ((#[trigger] children@[c])@) == (#[trigger] fulls@[f2])@)
                        || svs.contains(children@[c]@),
                forall|t: int|
                    0 <= t < n && parent_of((#[trigger] fulls@[t])@) == svs[di as int]
                        ==> path_views(children@).contains(fulls@[t]@),
                forall|b: int|
                    0 <= b < d2 && parent_of(#[trigger] svs[b]) == svs[di as int] ==> path_views(
                        children@,
                    ).contains(svs[b]),
            decreases sorted_dirs@.len() - d2,
        {
            let dp = parent_bytes(sorted_dirs[d2].as_slice());
            if bytes_eq(&dp, &sorted_dirs[di]) {
                let dc2 = clone_bytes(&sorted_dirs[d2]);
                if !contains_path(&children, &dc2) {
                    let ghost before = path_views(children@);
                    children.push(dc2);
                    proof {
                        assert(path_views(children@) =~= before.push(svs[d2 as int]));
                        assert(path_views(children@)[path_views(children@).len() - 1]
                            == svs[d2 as int]);
                        assert(parent_of(svs[d2 as int]) == svs[di as int]);
                        assert forall|c1: int, c2: int|
                            0 <= c1 < c2 < children@.len() implies (#[trigger] children@[c1])@
                            != (#[trigger] children@[c2])@ by {
                            if c2 == children@.len() - 1 {
                                if (children@[c1])@ == svs[d2 as int] {
                                    assert(before[c1] == svs[d2 as int]);
                                    assert(before.contains(svs[d2 as int]));
                                }
                            }
                        }
                        assert forall|c: int|
                            0 <= c < children@.len() implies ((exists|f2: int|
                                0 <= f2 < n && ((#[trigger] children@[c])@) == (
                                #[trigger] fulls@[f2])@) || svs.contains(children@[c]@)) by {
                            if c == children@.len() - 1 {
                                assert(svs.contains(svs[d2 as int]));
                            }
                        }
                        assert forall|t: int|
                            0 <= t < n && parent_of((#[trigger] fulls@[t])@)
                                == svs[di as int] implies path_views(children@).contains(
                            fulls@[t]@,
                        ) by {
                            let w = choose|w: int| 0 <= w < before.len() && before[w] == fulls@[t]@;
                            assert(path_views(children@)[w] == fulls@[t]@);
                        }
                        assert forall|b: int|
                            0 <= b < d2 + 1 && parent_of(#[trigger] svs[b])
                                == svs[di as int] implies path_views(children@).contains(
                            svs[b],
                        ) by {
                            if b < d2 {
                                let w = choose|w: int|
                                    0 <= w < before.len() && before[w] == svs[b];
                                assert(path_views(children@)[w] == svs[b]);
                            }
                        }
                    }
                } else {
                    proof {
                        assert forall|b: int|
                            0 <= b < d2 + 1 && parent_of(#[trigger] svs[b])
                                == svs[di as int] implies path_views(children@).contains(
                            svs[b],
                        ) by {}
                    }
                }
            } else {
                proof {
                    assert forall|b: int|
                        0 <= b < d2 + 1 && parent_of(#[trigger] svs[b])
                            == svs[di as int] implies path_views(children@).contains(svs[b]) by {}
                }
            }
            d2 += 1;
        }
        let dkey = clone_bytes(&sorted_dirs[di]);
        let ghost tm_before = tm@;
        tm.push((dkey, children));
        proof {
            assert(tm@[tm@.len() - 1].0@ == svs[di as int]);
            assert forall|t: int, ff: int|
                0 <= t < di + 1 && 0 <= ff < n && parent_of((#[trigger] fulls@[ff])@)
                    == svs[t] implies path_views((#[trigger] tm@[t]).1@).contains(
                fulls@[ff]@,
            ) by {
                if t < di {
                    assert(tm@[t] == tm_before[t]);
                }
            }
            assert forall|t: int, b: int|
                0 <= t < di + 1 && 0 <= b < svs.len() && parent_of(#[trigger] svs[b])
                    == svs[t] implies path_views((#[trigger] tm@[t]).1@).contains(svs[b]) by {
                if t < di {
                    assert(tm@[t] == tm_before[t]);
                }
            }
        }
        di += 1;
    }
    proof {
        assert forall|a: int, b: int|
            0 <= a < b < tm@.len() implies dir_views(tm@)[a] != dir_views(tm@)[b] by {
            assert(dir_views(tm@)[a] == svs[a]);
            assert(dir_views(tm@)[b] == svs[b]);
        }
        assert forall|a: int, b: int|
            0 <= a < b < tm@.len() implies slash_count(dir_views(tm@)[a]) >= slash_count(
            dir_views(tm@)[b],
        ) by {
            assert(dir_views(tm@)[a] == svs[a]);
            assert(dir_views(tm@)[b] == svs[b]);
        }
        if index.filemetas@.len() > 0 {
            let w = choose|w: int| 0 <= w < svs.len() && svs[w] == repo_path@;
            assert(dir_views(tm@)[w] == repo_path@);
        }
        assert(tree_map_ok(tm@, repo_path@, meta_filenames(index.filemetas@))) by {
            let fnames = meta_filenames(index.filemetas@);
            assert(fnames.len() == index.filemetas@.len());
            assert forall|t: int| 0 <= t < n implies (#[trigger] fulls@[t])@ == full_path(
                repo_path@,
                fnames[t],
            ) by {
                assert(fnames[t] == index.filemetas@[t].filename@);
            }
            // a listed directory is a layout entry, so its view is a dir view
            assert forall|x: Seq<u8>| svs.contains(x) implies dir_views(tm@).contains(x) by {
                let w = choose|w: int| 0 <= w < svs.len() && svs[w] == x;
                assert(dir_views(tm@)[w] == x);
            }
            assert forall|i3: int, c: int|
                0 <= i3 < tm@.len() && 0 <= c < tm@[i3].1@.len() implies (exists|f2: int|
                0 <= f2 < fnames.len() && (#[trigger] tm@[i3].1@[c])@ == full_path(
                    repo_path@,
                    #[trigger] fnames[f2],
                )) || dir_views(tm@).contains(tm@[i3].1@[c]@) by {
                if exists|f2: int|
                    0 <= f2 < n && ((tm@[i3].1@[c])@) == (#[trigger] fulls@[f2])@ {
                    let f2 = choose|f2: int|
                        0 <= f2 < n && ((tm@[i3].1@[c])@) == (#[trigger] fulls@[f2])@;
                    assert((tm@[i3].1@[c])@ == full_path(repo_path@, fnames[f2]));
                }
            }
            assert forall|f2: int|
                0 <= f2 < fnames.len() implies exists|i3: int|
                    0 <= i3 < tm@.len() && (#[trigger] tm@[i3]).0@ == parent_of(
                        full_path(repo_path@, #[trigger] fnames[f2]),
                    ) && path_views(tm@[i3].1@).contains(
                        full_path(repo_path@, fnames[f2]),
                    ) by {
                assert(fulls@[f2]@ == full_path(repo_path@, fnames[f2]));
                assert(svs.contains(parent_of(fulls@[f2]@)));
                let w = choose|w: int| 0 <= w < svs.len() && svs[w] == parent_of(fulls@[f2]@);
                assert(tm@[w].0@ == parent_of(fulls@[f2]@));
                assert(path_views(tm@[w].1@).contains(fulls@[f2]@));
            }
            assert forall|a: int, b: int|
                #![trigger dir_views(tm@)[a], dir_views(tm@)[b]]
                0 <= a < tm@.len() && 0 <= b < tm@.len() && parent_of(dir_views(tm@)[b])
                    == dir_views(tm@)[a] implies path_views(tm@[a].1@).contains(
                dir_views(tm@)[b],
            ) by {
                assert(dir_views(tm@)[a] == svs[a]);
                assert(dir_views(tm@)[b] == svs[b]);
            }
            assert forall|f2: int, j: int|
                #![trigger full_path(repo_path@, fnames[f2]).take(j)]
                0 <= f2 < fnames.len() && repo_path@.len() <= j < full_path(
                    repo_path@,
                    fnames[f2],
                ).len() && full_path(repo_path@, fnames[f2])[j] == 0x2f implies dir_views(
                tm@,
            ).contains(full_path(repo_path@, fnames[f2]).take(j)) by {
                assert(fulls@[f2]@ == full_path(repo_path@, fnames[f2]));
                assert(svs.contains(fulls@[f2]@.take(j)));
            }
        }
    }
    Ok(tm)
}

/// Sequences with the same contents hold the same values.
proof fn lemma_contains_by_multiset(a: Seq<Seq<u8>>, b: Seq<Seq<u8>>, x: Seq<u8>)
    requires
        a.to_multiset() == b.to_multiset(),
        a.contains(x),
    ensures
        b.contains(x),
{
    assert(a.to_multiset().count(x) > 0);
}

/// A duplicated value is counted at least twice.
proof fn lemma_dup_count(s: Seq<Seq<u8>>, i: int, j: int)
    requires
        0 <= i < j < s.len(),
        s[i] == s[j],
    ensures
        s.to_multiset().count(s[i]) >= 2,
    decreases s.len(),
{
    if j == s.len() - 1 {
        assert(s.remove(j).to_multiset() =~= s.to_multiset().remove(s[j]));
        assert(s.remove(j) =~= s.drop_last());
        assert(s.drop_last()[i] == s[i]);
        assert(s.drop_last().contains(s[i]));
        assert(s.drop_last().to_multiset().count(s[i]) > 0);
        assert(s.to_multiset().count(s[j]) == s.drop_last().to_multiset().count(s[i]) + 1);
    } else {
        lemma_dup_count(s.drop_last(), i, j);
        assert(s.remove(s.len() - 1).to_multiset() =~= s.to_multiset().remove(s.last()));
        assert(s.remove(s.len() - 1) =~= s.drop_last());
        assert(s.drop_last()[i] == s[i]);
        assert(s.to_multiset().count(s[i]) >= s.drop_last().to_multiset().count(s[i]));
    }
}

/// Without duplicates, nothing is counted twice.
proof fn lemma_distinct_count(s: Seq<Seq<u8>>, x: Seq<u8>)
    requires
        forall|a: int, b: int| 0 <= a < b < s.len() ==> s[a] != s[b],
    ensures
        s.to_multiset().count(x) <= 1,
    decreases s.len(),
{
    if s.len() == 0 {
        assert(s.to_multiset() =~= vstd::multiset::Multiset::<Seq<u8>>::empty());
    } else {
        assert forall|a: int, b: int|
            0 <= a < b < s.drop_last().len() implies s.drop_last()[a] != s.drop_last()[b] by {
            assert(s.drop_last()[a] == s[a]);
            assert(s.drop_last()[b] == s[b]);
        }
        lemma_distinct_count(s.drop_last(), x);
        assert(s.remove(s.len() - 1).to_multiset() =~= s.to_multiset().remove(s.last()));
        assert(s.remove(s.len() - 1) =~= s.drop_last());
        if x == s.last() {
            if s.drop_last().to_multiset().count(x) > 0 {
                assert(s.drop_last().contains(x));
                let w = choose|w: int|
                    0 <= w < s.drop_last().len() && s.drop_last()[w] == x;
                assert(s[w] == s[s.len() - 1]);
                assert(false);
            }
            assert(s.to_multiset().count(x) == s.drop_last().to_multiset().count(x) + 1);
        } else {
            assert(s.to_multiset().count(x) == s.drop_last().to_multiset().count(x));
        }
    }
}

/// Distinctness carries across a permutation.
proof fn lemma_distinct_by_multiset(a: Seq<Seq<u8>>, b: Seq<Seq<u8>>)
    requires
        a.to_multiset() == b.to_multiset(),
        forall|x: int, y: int| 0 <= x < y < a.len() ==> a[x] != a[y],
    ensures
        forall|x: int, y: int| 0 <= x < y < b.len() ==> b[x] != b[y],
{
    assert forall|x: int, y: int| 0 <= x < y < b.len() implies b[x] != b[y] by {
        if b[x] == b[y] {
            lemma_dup_count(b, x, y);
            lemma_distinct_count(a, b[x]);
        }
    }
}

/// A copy of a byte slice as a vector.
fn clone_vec_u8_ref(p: &[u8]) -> (r: Vec<u8>)
    ensures
        r@ == p@,
{
    vstd::slice::slice_to_vec(p)
}

/// Sorts directories by depth, descending, preserving the multiset.
#[verifier::rlimit(100)]
fn sort_dirs_by_depth(input: Vec<Vec<u8>>) -> (r: Vec<Vec<u8>>)
    ensures
        path_views(r@).to_multiset() == path_views(input@).to_multiset(),
        forall|a: int, b: int|
            0 <= a < b < r@.len() ==> slash_count(path_views(r@)[a]) >= slash_count(
                path_views(r@)[b],
            ),
{
    let ghost orig = path_views(input@);
    let mut rem = input;
    let mut out: Vec<Vec<u8>> = Vec::new();
    while rem.len() > 0
        invariant
            path_views(out@).to_multiset().add(path_views(rem@).to_multiset())
                == orig.to_multiset(),
            forall|a: int, b: int|
                0 <= a < b < out@.len() ==> slash_count(path_views(out@)[a]) >= slash_count(
                    path_views(out@)[b],
                ),
            forall|i: int, j: int|
                0 <= i < out@.len() && 0 <= j < rem@.len() ==> slash_count(path_views(out@)[i])
                    >= slash_count(path_views(rem@)[j]),
        decreases rem.len(),
    {
        let mut mi: usize = 0;
        let mut best_depth = slash_count_of(&rem[0]);
        let mut k: usize = 1;
        while k < rem.len()
            invariant
                0 <= mi < rem@.len(),
                1 <= k <= rem@.len(),
                best_depth == slash_count(rem@[mi as int]@),
                forall|j: int| 0 <= j < k ==> slash_count(rem@[j]@) <= slash_count(rem@[mi as int]@),
            decreases rem@.len() - k,
        {
            let dk = slash_count_of(&rem[k]);
            if dk > best_depth {
                mi = k;
                best_depth = dk;
            }
            k += 1;
        }
        let ghost old_out = out@;
        let ghost old_rem = rem@;
        let e = rem.remove(mi);
        out.push(e);
        proof {
            let m = e@;
            assert(path_views(old_out).push(m) =~= path_views(out@));
            assert(path_views(old_rem).remove(mi as int) =~= path_views(rem@));
            let oms = path_views(old_out).to_multiset();
            let rms = path_views(old_rem).to_multiset();
            assert(path_views(old_rem)[mi as int] == m);
            assert(path_views(rem@).to_multiset() =~= rms.remove(m));
            assert(path_views(out@).to_multiset() =~= oms.insert(m));
            assert(path_views(old_rem).contains(m));
            assert(rms.count(m) >= 1);
            assert(oms.insert(m).add(rms.remove(m)) =~= oms.add(rms));
            assert forall|a: int, b: int|
                0 <= a < b < out@.len() implies slash_count(path_views(out@)[a]) >= slash_count(
                path_views(out@)[b],
            ) by {
                if b == out@.len() - 1 {
                    assert(path_views(out@)[a] == path_views(old_out)[a]);
                }
            }
            assert forall|i: int, j: int|
                0 <= i < out@.len() && 0 <= j < rem@.len() implies slash_count(
                path_views(out@)[i],
            ) >= slash_count(path_views(rem@)[j]) by {
                let x = path_views(rem@)[j];
                if j < mi {
                    assert(x == path_views(old_rem)[j]);
                } else {
                    assert(x == path_views(old_rem)[j + 1]);
                }
                if i < out@.len() - 1 {
                    assert(path_views(out@)[i] == path_views(old_out)[i]);
                } else {
                    assert(path_views(out@)[i] == m);
                }
            }
        }
    }
    out
}

} // verus!
