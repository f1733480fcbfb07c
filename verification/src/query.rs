//! The read-only query layer over an `IndexStore`: directory-content
//! listing by the immediate-child rule, substring search over file names
//! and parent paths, and the top-N largest files — the latter two ordered
//! by size descending, stably for ties.

use crate::records::{DirInfo, DirModel, FileInfo, FileModel};
use crate::store::{IndexStore, StoreModel};
use crate::text::{contains_seq, is_immediate_child, immediate_child_of, str_contains};
use vstd::prelude::*;
use vstd::seq_lib::lemma_multiset_commutative;

verus! {

/// First index whose file is strictly smaller than `sz`, or `s.len()`.
pub open spec fn cut_idx(s: Seq<FileModel>, sz: int) -> int
    decreases s.len(),
{
    if s.len() == 0 {
        0
    } else if s[0].size_bytes < sz {
        0
    } else {
        1 + cut_idx(s.drop_first(), sz)
    }
}

pub proof fn lemma_cut_idx(s: Seq<FileModel>, sz: int)
    ensures
        0 <= cut_idx(s, sz) <= s.len(),
        forall|j: int| 0 <= j < cut_idx(s, sz) ==> (#[trigger] s[j]).size_bytes >= sz,
        cut_idx(s, sz) < s.len() ==> s[cut_idx(s, sz)].size_bytes < sz,
    decreases s.len(),
{
    if s.len() > 0 && !(s[0].size_bytes < sz) {
        lemma_cut_idx(s.drop_first(), sz);
        let f = cut_idx(s, sz);
        assert forall|j: int| 0 <= j < f implies (#[trigger] s[j]).size_bytes >= sz by {
            if j > 0 {
                assert(s.drop_first()[j - 1] == s[j]);
            }
        }
        if f < s.len() {
            assert(s.drop_first()[f - 1] == s[f]);
        }
    }
}

pub proof fn lemma_cut_idx_is(s: Seq<FileModel>, sz: int, i: int)
    requires
        0 <= i <= s.len(),
        forall|j: int| 0 <= j < i ==> (#[trigger] s[j]).size_bytes >= sz,
        i < s.len() ==> s[i].size_bytes < sz,
    ensures
        cut_idx(s, sz) == i,
{
    lemma_cut_idx(s, sz);
    let f = cut_idx(s, sz);
    if f < i {
        assert(s[f].size_bytes >= sz);
        assert(false);
    }
    if i < f {
        assert(s[i].size_bytes >= sz);
        assert(false);
    }
}

/// Inserts `x` before the first strictly smaller entry: after every
/// entry at least as large, so ties keep their input order.
pub open spec fn insert_desc(s: Seq<FileModel>, x: FileModel) -> Seq<FileModel> {
    let k = cut_idx(s, x.size_bytes);
    s.take(k) + seq![x] + s.skip(k)
}

/// Stable sort by reported size, largest first.
pub open spec fn sort_desc(s: Seq<FileModel>) -> Seq<FileModel>
    decreases s.len(),
{
    if s.len() == 0 {
        Seq::empty()
    } else {
        insert_desc(sort_desc(s.drop_last()), s.last())
    }
}

/// Sizes never increase along the sequence.
pub open spec fn sorted_desc(s: Seq<FileModel>) -> bool {
    forall|i: int, j: int|
        0 <= i < j < s.len() ==> (#[trigger] s[i]).size_bytes >= (#[trigger] s[j]).size_bytes
}

pub proof fn lemma_insert_desc(s: Seq<FileModel>, x: FileModel)
    requires
        sorted_desc(s),
    ensures
        sorted_desc(insert_desc(s, x)),
        insert_desc(s, x).to_multiset() == s.to_multiset().insert(x),
        insert_desc(s, x).len() == s.len() + 1,
{
    let k = cut_idx(s, x.size_bytes);
    lemma_cut_idx(s, x.size_bytes);
    let r = insert_desc(s, x);
    assert forall|i: int, j: int| 0 <= i < j < r.len() implies (#[trigger] r[i]).size_bytes >= (
    #[trigger] r[j]).size_bytes by {
        if i < k {
            assert(r[i] == s[i]);
        } else if i == k {
            assert(r[i] == x);
        } else {
            assert(r[i] == s[i - 1]);
        }
        if j < k {
            assert(r[j] == s[j]);
        } else if j == k {
            assert(r[j] == x);
        } else {
            assert(r[j] == s[j - 1]);
        }
        if j > k && k < s.len() {
            assert(s[k].size_bytes < x.size_bytes);
        }
    }
    broadcast use vstd::seq_lib::group_to_multiset_ensures;
    broadcast use vstd::multiset::group_multiset_axioms;

    assert(r =~= s.take(k).push(x) + s.skip(k));
    lemma_multiset_commutative(s.take(k).push(x), s.skip(k));
    lemma_multiset_commutative(s.take(k), s.skip(k));
    assert(s.take(k) + s.skip(k) =~= s);
    assert(s.take(k).push(x).to_multiset() =~= s.take(k).to_multiset().insert(x));
    assert(r.to_multiset() =~= s.to_multiset().insert(x));
}

/// Sorting yields a size-descending permutation of the input.
pub proof fn lemma_sort_desc(s: Seq<FileModel>)
    ensures
        sorted_desc(sort_desc(s)),
        sort_desc(s).to_multiset() == s.to_multiset(),
        sort_desc(s).len() == s.len(),
    decreases s.len(),
{
    broadcast use vstd::seq_lib::group_to_multiset_ensures;

    if s.len() > 0 {
        lemma_sort_desc(s.drop_last());
        lemma_insert_desc(sort_desc(s.drop_last()), s.last());
        assert(s.drop_last().push(s.last()) =~= s);
        assert(s.drop_last().to_multiset().insert(s.last()) =~= s.to_multiset());
    }
}

/// The first `limit` entries; a negative limit places no cap, as the
/// store's LIMIT convention has it.
pub open spec fn take_limit(s: Seq<FileModel>, limit: int) -> Seq<FileModel> {
    if limit < 0 || limit >= s.len() {
        s
    } else {
        s.take(limit)
    }
}

/// A file matches a search term when the term occurs in its name or in
/// its parent path.
pub open spec fn file_matches(f: FileModel, term: Seq<char>) -> bool {
    contains_seq(f.name, term) || contains_seq(f.parent_path, term)
}

/// The files matching a search term, in storage order.
pub open spec fn matching_files(files: Seq<FileModel>, term: Seq<char>) -> Seq<FileModel>
    decreases files.len(),
{
    if files.len() == 0 {
        Seq::empty()
    } else if file_matches(files.last(), term) {
        matching_files(files.drop_last(), term).push(files.last())
    } else {
        matching_files(files.drop_last(), term)
    }
}

proof fn lemma_matching_files_push(files: Seq<FileModel>, term: Seq<char>, x: FileModel)
    ensures
        matching_files(files.push(x), term) == if file_matches(x, term) {
            matching_files(files, term).push(x)
        } else {
            matching_files(files, term)
        },
{
    assert(files.push(x).last() == x);
    assert(files.push(x).drop_last() =~= files);
}

/// The directory records that are immediate children of `p`, in storage
/// order.
pub open spec fn child_dirs(dirs: Seq<DirModel>, p: Seq<char>) -> Seq<DirModel>
    decreases dirs.len(),
{
    if dirs.len() == 0 {
        Seq::empty()
    } else if is_immediate_child(p, dirs.last().path) {
        child_dirs(dirs.drop_last(), p).push(dirs.last())
    } else {
        child_dirs(dirs.drop_last(), p)
    }
}

proof fn lemma_child_dirs_push(dirs: Seq<DirModel>, p: Seq<char>, x: DirModel)
    ensures
        child_dirs(dirs.push(x), p) == if is_immediate_child(p, x.path) {
            child_dirs(dirs, p).push(x)
        } else {
            child_dirs(dirs, p)
        },
{
    assert(dirs.push(x).last() == x);
    assert(dirs.push(x).drop_last() =~= dirs);
}

/// The file records whose parent path is exactly `p`, in storage order.
pub open spec fn child_files(files: Seq<FileModel>, p: Seq<char>) -> Seq<FileModel>
    decreases files.len(),
{
    if files.len() == 0 {
        Seq::empty()
    } else if files.last().parent_path == p {
        child_files(files.drop_last(), p).push(files.last())
    } else {
        child_files(files.drop_last(), p)
    }
}

proof fn lemma_child_files_push(files: Seq<FileModel>, p: Seq<char>, x: FileModel)
    ensures
        child_files(files.push(x), p) == if x.parent_path == p {
            child_files(files, p).push(x)
        } else {
            child_files(files, p)
        },
{
    assert(files.push(x).last() == x);
    assert(files.push(x).drop_last() =~= files);
}

/// What `get_dir_content` returns for a store and a path.
pub open spec fn spec_dir_content(m: StoreModel, p: Seq<char>) -> (Seq<DirModel>, Seq<FileModel>) {
    (child_dirs(m.dirs, p), child_files(m.files, p))
}

/// What `search_files` returns for a store, a term and a limit.
pub open spec fn spec_search_files(m: StoreModel, term: Seq<char>, limit: int) -> Seq<FileModel> {
    take_limit(sort_desc(matching_files(m.files, term)), limit)
}

/// What `get_top_files` returns for a store and a limit.
pub open spec fn spec_top_files(m: StoreModel, limit: int) -> Seq<FileModel> {
    take_limit(sort_desc(m.files), limit)
}

/// Sorts file records by reported size, largest first, stably.
fn sort_files_desc(src: Vec<FileInfo>) -> (r: Vec<FileInfo>)
    ensures
        r@.map_values(|f: FileInfo| f@) == sort_desc(src@.map_values(|f: FileInfo| f@)),
{
    let ghost all = src@.map_values(|f: FileInfo| f@);
    let mut out: Vec<FileInfo> = Vec::new();
    let mut i: usize = 0;
    proof {
        assert(all.take(0) =~= Seq::<FileModel>::empty());
        assert(out@.map_values(|f: FileInfo| f@) =~= Seq::<FileModel>::empty());
    }
    while i < src.len()
        invariant
            0 <= i <= src@.len(),
            all == src@.map_values(|f: FileInfo| f@),
            out@.map_values(|f: FileInfo| f@) == sort_desc(all.take(i as int)),
        decreases src@.len() - i,
    {
        let f = src[i].clone();
        let ghost fm = f@;
        let ghost cur = out@.map_values(|x: FileInfo| x@);
        let n = out.len();
        let mut k: usize = 0;
        while k < n && !(out[k].size_bytes < f.size_bytes)
            invariant
                0 <= k <= n,
                n == out@.len(),
                fm == f@,
                cur == out@.map_values(|x: FileInfo| x@),
                forall|j: int| 0 <= j < k ==> (#[trigger] cur[j]).size_bytes >= fm.size_bytes,
            decreases n - k,
        {
            proof {
                assert(cur[k as int] == out@[k as int]@);
            }
            k += 1;
        }
        proof {
            if k < n {
                assert(cur[k as int].size_bytes < fm.size_bytes);
            }
            lemma_cut_idx_is(cur, fm.size_bytes, k as int);
        }
        out.insert(k, f);
        proof {
            assert(out@.map_values(|x: FileInfo| x@) =~= cur.take(k as int) + seq![fm] + cur.skip(
                k as int,
            ));
            assert(all.take(i + 1).drop_last() =~= all.take(i as int));
            assert(all.take(i + 1).last() == all[i as int]);
            assert(fm == all[i as int]);
            assert(out@.map_values(|x: FileInfo| x@) == sort_desc(all.take(i + 1)));
        }
        i += 1;
    }
    proof {
        assert(all.take(src@.len() as int) =~= all);
    }
    out
}

/// Truncates a size-ordered result to `limit` entries; a negative limit
/// keeps everything.
fn apply_limit(v: Vec<FileInfo>, limit: i64) -> (r: Vec<FileInfo>)
    ensures
        r@.map_values(|f: FileInfo| f@) == take_limit(v@.map_values(|f: FileInfo| f@), limit as int),
{
    let ghost before = v@.map_values(|f: FileInfo| f@);
    let mut v = v;
    if limit >= 0 && (limit as u64) < (v.len() as u64) {
        let l = limit as usize;
        v.truncate(l);
        proof {
            assert(v@.map_values(|f: FileInfo| f@) =~= before.take(limit as int));
        }
    }
    v
}

impl IndexStore {
    /// The immediate children of `path`: child directories by the
    /// path-prefix rule, child files by exact parent match, each in
    /// storage order.
    pub fn get_dir_content(&self, path: &String) -> (r: (Vec<DirInfo>, Vec<FileInfo>))
        ensures
            r.0@.map_values(|d: DirInfo| d@) == spec_dir_content(self@, path@).0,
            r.1@.map_values(|f: FileInfo| f@) == spec_dir_content(self@, path@).1,
    {
        proof {
            crate::store::lemma_store_view(self);
        }
        let ghost dm = self@.dirs;
        let ghost fm = self@.files;
        let mut dirs: Vec<DirInfo> = Vec::new();
        let nd = self.dirs.len();
        let mut i: usize = 0;
        proof {
            assert(dm.take(0) =~= Seq::<DirModel>::empty());
            assert(child_dirs(dm.take(0), path@) =~= Seq::<DirModel>::empty());
            assert(dirs@.map_values(|d: DirInfo| d@) =~= Seq::<DirModel>::empty());
        }
        while i < nd
            invariant
                0 <= i <= nd,
                nd == self@.dirs.len(),
                dm == self@.dirs,
                dm == self.dirs@.map_values(|d: DirInfo| d@),
                dirs@.map_values(|d: DirInfo| d@) == child_dirs(dm.take(i as int), path@),
            decreases nd - i,
        {
            let ghost prev = dirs@.map_values(|d: DirInfo| d@);
            let cand = &self.dirs[i];
            proof {
                assert(cand@ == dm[i as int]);
                assert(dm.take(i + 1) =~= dm.take(i as int).push(dm[i as int]));
                lemma_child_dirs_push(dm.take(i as int), path@, dm[i as int]);
            }
            if immediate_child_of(path.as_str(), cand.path.as_str()) {
                let c = cand.clone();
                dirs.push(c);
                proof {
                    assert(dirs@.map_values(|d: DirInfo| d@) =~= prev.push(dm[i as int]));
                }
            }
            i += 1;
        }
        let mut files: Vec<FileInfo> = Vec::new();
        let nf = self.files.len();
        let mut j: usize = 0;
        proof {
            assert(fm.take(0) =~= Seq::<FileModel>::empty());
            assert(child_files(fm.take(0), path@) =~= Seq::<FileModel>::empty());
            assert(files@.map_values(|f: FileInfo| f@) =~= Seq::<FileModel>::empty());
        }
        while j < nf
            invariant
                0 <= j <= nf,
                nf == self@.files.len(),
                fm == self@.files,
                fm == self.files@.map_values(|f2: FileInfo| f2@),
                files@.map_values(|f: FileInfo| f@) == child_files(fm.take(j as int), path@),
            decreases nf - j,
        {
            let ghost prev = files@.map_values(|f: FileInfo| f@);
            let cand = &self.files[j];
            proof {
                assert(cand@ == fm[j as int]);
                assert(fm.take(j + 1) =~= fm.take(j as int).push(fm[j as int]));
                lemma_child_files_push(fm.take(j as int), path@, fm[j as int]);
            }
            if cand.parent_path == *path {
                let c = cand.clone();
                files.push(c);
                proof {
                    assert(files@.map_values(|f: FileInfo| f@) =~= prev.push(fm[j as int]));
                }
            }
            j += 1;
        }
        proof {
            assert(dm.take(nd as int) =~= dm);
            assert(fm.take(nf as int) =~= fm);
        }
        (dirs, files)
    }

    /// The files whose name or parent path contains `term`, by size
    /// descending (stable for ties), capped at `limit` results; a
    /// negative limit places no cap.
    pub fn search_files(&self, term: &String, limit: i64) -> (r: Vec<FileInfo>)
        ensures
            r@.map_values(|f: FileInfo| f@) == spec_search_files(self@, term@, limit as int),
    {
        proof {
            crate::store::lemma_store_view(self);
        }
        let ghost fm = self@.files;
        let mut hits: Vec<FileInfo> = Vec::new();
        let nf = self.files.len();
        let mut j: usize = 0;
        proof {
            assert(fm.take(0) =~= Seq::<FileModel>::empty());
            assert(matching_files(fm.take(0), term@) =~= Seq::<FileModel>::empty());
            assert(hits@.map_values(|f: FileInfo| f@) =~= Seq::<FileModel>::empty());
        }
        while j < nf
            invariant
                0 <= j <= nf,
                nf == self@.files.len(),
                fm == self@.files,
                fm == self.files@.map_values(|f2: FileInfo| f2@),
                hits@.map_values(|f: FileInfo| f@) == matching_files(fm.take(j as int), term@),
            decreases nf - j,
        {
            let ghost prev = hits@.map_values(|f: FileInfo| f@);
            let cand = &self.files[j];
            proof {
                assert(cand@ == fm[j as int]);
                assert(fm.take(j + 1) =~= fm.take(j as int).push(fm[j as int]));
                lemma_matching_files_push(fm.take(j as int), term@, fm[j as int]);
            }
            if str_contains(cand.name.as_str(), term.as_str()) || str_contains(
                cand.parent_path.as_str(),
                term.as_str(),
            ) {
                let c = cand.clone();
                hits.push(c);
                proof {
                    assert(hits@.map_values(|f: FileInfo| f@) =~= prev.push(fm[j as int]));
                }
            }
            j += 1;
        }
        proof {
            assert(fm.take(nf as int) =~= fm);
        }
        let sorted = sort_files_desc(hits);
        apply_limit(sorted, limit)
    }

    /// The `limit` largest files of the whole report, by size descending
    /// (stable for ties); a negative limit places no cap.
    pub fn get_top_files(&self, limit: i64) -> (r: Vec<FileInfo>)
        ensures
            r@.map_values(|f: FileInfo| f@) == spec_top_files(self@, limit as int),
    {
        proof {
            crate::store::lemma_store_view(self);
        }
        let ghost fm = self@.files;
        let mut all: Vec<FileInfo> = Vec::new();
        let nf = self.files.len();
        let mut j: usize = 0;
        proof {
            assert(all@.map_values(|f: FileInfo| f@) =~= fm.take(0));
        }
        while j < nf
            invariant
                0 <= j <= nf,
                nf == self@.files.len(),
                fm == self@.files,
                fm == self.files@.map_values(|f2: FileInfo| f2@),
                all@.map_values(|f: FileInfo| f@) == fm.take(j as int),
            decreases nf - j,
        {
            let ghost prev = all@.map_values(|f: FileInfo| f@);
            let c = self.files[j].clone();
            proof {
                assert(c@ == fm[j as int]);
            }
            all.push(c);
            proof {
                assert(all@.map_values(|f: FileInfo| f@) =~= prev.push(fm[j as int]));
                assert(fm.take(j + 1) =~= fm.take(j as int).push(fm[j as int]));
            }
            j += 1;
        }
        proof {
            assert(fm.take(nf as int) =~= fm);
        }
        let sorted = sort_files_desc(all);
        apply_limit(sorted, limit)
    }
}

} // verus!
