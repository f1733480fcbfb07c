//! The index store: the two record collections a report loads into,
//! their well-formedness invariant, and the bulk-load operations.
//!
//! Directories upsert by path (last write wins), files append; a file
//! whose parent path matches no directory record is dropped, as is any
//! record past the store's capacity — dropped rows never abort a load.

use crate::records::{AnalysisError, AnalysisSummary, DirInfo, DirModel, FileInfo, FileModel,
    ItemModel, ParseItem};
use vstd::prelude::*;
use vstd::string::StrSliceExecFns;

verus! {

/// Spec-level model of an `IndexStore`: its two record sequences.
pub struct StoreModel {
    pub dirs: Seq<DirModel>,
    pub files: Seq<FileModel>,
}

/// The disk-usage index: directory records keyed by path, file records
/// pointing at their parent directory.
pub struct IndexStore {
    pub(crate) dirs: Vec<DirInfo>,
    pub(crate) files: Vec<FileInfo>,
}

impl View for IndexStore {
    type V = StoreModel;

    closed spec fn view(&self) -> StoreModel {
        StoreModel {
            dirs: self.dirs@.map_values(|d: DirInfo| d@),
            files: self.files@.map_values(|f: FileInfo| f@),
        }
    }
}

/// The store's model is exactly its two record vectors, viewed.
pub(crate) proof fn lemma_store_view(s: &IndexStore)
    ensures
        s@.dirs == s.dirs@.map_values(|d: DirInfo| d@),
        s@.files == s.files@.map_values(|f: FileInfo| f@),
{
}

/// Directory paths are mutually distinct.
pub open spec fn dirs_wf(dirs: Seq<DirModel>) -> bool {
    forall|i: int, j: int| 0 <= i < j < dirs.len() ==> dirs[i].path != dirs[j].path
}

/// Some directory record has path `p`.
pub open spec fn parent_present(dirs: Seq<DirModel>, p: Seq<char>) -> bool {
    exists|i: int| 0 <= i < dirs.len() && (#[trigger] dirs[i]).path == p
}

/// Every file record's parent path names some directory record.
pub open spec fn files_covered(m: StoreModel) -> bool {
    forall|k: int| 0 <= k < m.files.len() ==> parent_present(m.dirs, (#[trigger] m.files[k]).parent_path)
}

/// The store invariant: unique directory paths, every file's parent
/// present among them, and counts that fit an `i64`.
pub open spec fn store_wf(m: StoreModel) -> bool {
    &&& dirs_wf(m.dirs)
    &&& files_covered(m)
    &&& m.dirs.len() <= i64::MAX
    &&& m.files.len() <= i64::MAX
}

/// Index of the first directory whose path is `p`, or `dirs.len()`.
pub open spec fn dir_find(dirs: Seq<DirModel>, p: Seq<char>) -> int
    decreases dirs.len(),
{
    if dirs.len() == 0 {
        0
    } else if dirs[0].path == p {
        0
    } else {
        1 + dir_find(dirs.drop_first(), p)
    }
}

pub proof fn lemma_dir_find(dirs: Seq<DirModel>, p: Seq<char>)
    ensures
        0 <= dir_find(dirs, p) <= dirs.len(),
        forall|j: int| 0 <= j < dir_find(dirs, p) ==> (#[trigger] dirs[j]).path != p,
        dir_find(dirs, p) < dirs.len() ==> dirs[dir_find(dirs, p)].path == p,
    decreases dirs.len(),
{
    if dirs.len() > 0 && dirs[0].path != p {
        lemma_dir_find(dirs.drop_first(), p);
        let f = dir_find(dirs, p);
        assert forall|j: int| 0 <= j < f implies (#[trigger] dirs[j]).path != p by {
            if j > 0 {
                assert(dirs.drop_first()[j - 1] == dirs[j]);
            }
        }
        if f < dirs.len() {
            assert(dirs.drop_first()[f - 1] == dirs[f]);
        }
    }
}

pub proof fn lemma_dir_find_is(dirs: Seq<DirModel>, p: Seq<char>, i: int)
    requires
        0 <= i <= dirs.len(),
        forall|j: int| 0 <= j < i ==> (#[trigger] dirs[j]).path != p,
        i < dirs.len() ==> dirs[i].path == p,
    ensures
        dir_find(dirs, p) == i,
{
    lemma_dir_find(dirs, p);
    let f = dir_find(dirs, p);
    if f < i {
        assert(dirs[f].path != p);
        assert(false);
    }
    if i < f {
        assert(dirs[i].path != p);
        assert(false);
    }
}

/// How one parsed record changes the store: directories upsert by path,
/// files append when their parent is present; anything else is dropped.
pub open spec fn spec_apply(m: StoreModel, item: ItemModel) -> StoreModel {
    match item {
        ItemModel::Directory(d) => {
            let k = dir_find(m.dirs, d.path);
            if k < m.dirs.len() {
                StoreModel { dirs: m.dirs.update(k, d), files: m.files }
            } else if m.dirs.len() < i64::MAX {
                StoreModel { dirs: m.dirs.push(d), files: m.files }
            } else {
                m
            }
        },
        ItemModel::File(f) => {
            let k = dir_find(m.dirs, f.parent_path);
            if k < m.dirs.len() && m.files.len() < i64::MAX {
                StoreModel { dirs: m.dirs, files: m.files.push(f) }
            } else {
                m
            }
        },
    }
}

/// The store a stream of parsed records turns `m` into, applied in order.
pub open spec fn spec_load_from(m: StoreModel, items: Seq<ItemModel>) -> StoreModel
    decreases items.len(),
{
    if items.len() == 0 {
        m
    } else {
        spec_load_from(spec_apply(m, items[0]), items.drop_first())
    }
}

pub open spec fn empty_store() -> StoreModel {
    StoreModel { dirs: Seq::empty(), files: Seq::empty() }
}

/// The store a stream of parsed records loads into, from empty.
pub open spec fn spec_load(items: Seq<ItemModel>) -> StoreModel {
    spec_load_from(empty_store(), items)
}

pub proof fn lemma_load_from_concat(m: StoreModel, i1: Seq<ItemModel>, i2: Seq<ItemModel>)
    ensures
        spec_load_from(m, i1 + i2) == spec_load_from(spec_load_from(m, i1), i2),
    decreases i1.len(),
{
    if i1.len() == 0 {
        assert(i1 + i2 =~= i2);
    } else {
        lemma_load_from_concat(spec_apply(m, i1[0]), i1.drop_first(), i2);
        assert((i1 + i2).drop_first() =~= i1.drop_first() + i2);
        assert((i1 + i2)[0] == i1[0]);
    }
}

pub proof fn lemma_load_from_snoc(m: StoreModel, items: Seq<ItemModel>, x: ItemModel)
    ensures
        spec_load_from(m, items.push(x)) == spec_apply(spec_load_from(m, items), x),
{
    lemma_load_from_concat(m, items, seq![x]);
    assert(items.push(x) =~= items + seq![x]);
    let m1 = spec_load_from(m, items);
    assert(seq![x][0] == x);
    assert(seq![x].drop_first() =~= Seq::<ItemModel>::empty());
    assert(spec_load_from(spec_apply(m1, x), Seq::<ItemModel>::empty()) == spec_apply(m1, x));
    assert(spec_load_from(m1, seq![x]) == spec_apply(m1, x));
}

/// Applying one record preserves the store invariant.
pub proof fn lemma_apply_wf(m: StoreModel, item: ItemModel)
    requires
        store_wf(m),
    ensures
        store_wf(spec_apply(m, item)),
{
    lemma_dir_find(m.dirs, match item {
        ItemModel::Directory(d) => d.path,
        ItemModel::File(f) => f.parent_path,
    });
    match item {
        ItemModel::Directory(d) => {
            let k = dir_find(m.dirs, d.path);
            if k < m.dirs.len() {
                let nd = m.dirs.update(k, d);
                let nm = StoreModel { dirs: nd, files: m.files };
                assert(m.dirs[k].path == d.path);
                assert forall|i: int| 0 <= i < nd.len() implies (#[trigger] nd[i]).path
                    == m.dirs[i].path by {}
                assert forall|i: int, j: int| 0 <= i < j < nd.len() implies (
                #[trigger] nd[i]).path != (#[trigger] nd[j]).path by {
                    assert(nd[i].path == m.dirs[i].path);
                    assert(nd[j].path == m.dirs[j].path);
                }
                assert forall|q: int| 0 <= q < nm.files.len() implies parent_present(
                    nm.dirs,
                    (#[trigger] nm.files[q]).parent_path,
                ) by {
                    let w = choose|i: int|
                        0 <= i < m.dirs.len() && (#[trigger] m.dirs[i]).path
                            == m.files[q].parent_path;
                    assert(nd[w].path == m.files[q].parent_path);
                }
                assert(store_wf(nm));
                assert(spec_apply(m, item) == nm);
            } else if m.dirs.len() < i64::MAX {
                let nd = m.dirs.push(d);
                let nm = StoreModel { dirs: nd, files: m.files };
                assert forall|i: int, j: int| 0 <= i < j < nd.len() implies (#[trigger] nd[i]).path
                    != (#[trigger] nd[j]).path by {
                    if j < m.dirs.len() {
                    } else {
                        assert(nd[j] == d);
                        assert(m.dirs[i].path != d.path);
                    }
                }
                assert forall|q: int| 0 <= q < nm.files.len() implies parent_present(
                    nm.dirs,
                    (#[trigger] nm.files[q]).parent_path,
                ) by {
                    let w = choose|i: int|
                        0 <= i < m.dirs.len() && (#[trigger] m.dirs[i]).path
                            == m.files[q].parent_path;
                    assert(nd[w].path == m.files[q].parent_path);
                }
                assert(store_wf(nm));
                assert(spec_apply(m, item) == nm);
            }
        },
        ItemModel::File(f) => {
            let k = dir_find(m.dirs, f.parent_path);
            if k < m.dirs.len() && m.files.len() < i64::MAX {
                let nf = m.files.push(f);
                let nm = StoreModel { dirs: m.dirs, files: nf };
                assert forall|q: int| 0 <= q < nm.files.len() implies parent_present(
                    nm.dirs,
                    (#[trigger] nm.files[q]).parent_path,
                ) by {
                    if q < m.files.len() {
                        assert(nf[q] == m.files[q]);
                        assert(parent_present(m.dirs, m.files[q].parent_path));
                    } else {
                        assert(nf[q] == f);
                        assert(m.dirs[k].path == f.parent_path);
                    }
                }
                assert(store_wf(nm));
                assert(spec_apply(m, item) == nm);
            }
        },
    }
}

impl IndexStore {
    /// A fresh, empty store.
    pub fn new() -> (r: IndexStore)
        ensures
            r@ == empty_store(),
            store_wf(r@),
    {
        let r = IndexStore { dirs: Vec::new(), files: Vec::new() };
        proof {
            assert(r@.dirs =~= empty_store().dirs);
            assert(r@.files =~= empty_store().files);
        }
        r
    }

    /// Index of the directory record with the given path, or the
    /// directory count when there is none.
    fn find_dir(&self, p: &String) -> (k: usize)
        ensures
            k as int == dir_find(self@.dirs, p@),
    {
        let n = self.dirs.len();
        let mut k: usize = 0;
        while k < n && !(self.dirs[k].path == *p)
            invariant
                0 <= k <= n,
                n == self.dirs@.len(),
                forall|j: int| 0 <= j < k ==> (#[trigger] self@.dirs[j]).path != p@,
            decreases n - k,
        {
            k += 1;
        }
        proof {
            if k < n {
                assert(self@.dirs[k as int].path == p@);
            }
            lemma_dir_find_is(self@.dirs, p@, k as int);
        }
        k
    }

    /// Applies one parsed record, exactly as `spec_apply` says; rows
    /// that cannot be applied are dropped rather than failing the load.
    pub fn apply_item(&mut self, item: ParseItem)
        ensures
            final (self)@ == spec_apply(old(self)@, item@),
            store_wf(old(self)@) ==> store_wf(final (self)@),
    {
        proof {
            if store_wf(old(self)@) {
                lemma_apply_wf(old(self)@, item@);
            }
        }
        match item {
            ParseItem::Directory(d) => {
                let k = self.find_dir(&d.path);
                let n = self.dirs.len();
                let ghost dm = d@;
                if k < n {
                    let ghost before = self@.dirs;
                    self.dirs.remove(k);
                    self.dirs.insert(k, d);
                    proof {
                        assert(self@.dirs =~= before.update(k as int, dm));
                    }
                } else if (n as u64) < i64::MAX as u64 {
                    let ghost before = self@.dirs;
                    self.dirs.push(d);
                    proof {
                        assert(self@.dirs =~= before.push(dm));
                    }
                }
            },
            ParseItem::File(f) => {
                let k = self.find_dir(&f.parent_path);
                let n = self.dirs.len();
                if k < n && (self.files.len() as u64) < i64::MAX as u64 {
                    let ghost before = self@.files;
                    let ghost fm = f@;
                    self.files.push(f);
                    proof {
                        assert(self@.files =~= before.push(fm));
                    }
                }
            },
        }
    }

    /// Applies a whole batch of parsed records, front to back.
    pub fn apply_batch(&mut self, batch: Vec<ParseItem>)
        ensures
            final (self)@ == spec_load_from(
                old(self)@,
                batch@.map_values(|it: ParseItem| it@),
            ),
            store_wf(old(self)@) ==> store_wf(final (self)@),
    {
        let ghost all = batch@.map_values(|it: ParseItem| it@);
        let mut b = batch;
        let ghost mut done: int = 0;
        proof {
            assert(all.take(0) =~= Seq::<ItemModel>::empty());
            assert(b@.map_values(|it: ParseItem| it@) =~= all.skip(0));
        }
        while b.len() > 0
            invariant
                0 <= done <= all.len(),
                b@.map_values(|it: ParseItem| it@) == all.skip(done),
                self@ == spec_load_from(old(self)@, all.take(done)),
                store_wf(old(self)@) ==> store_wf(self@),
            decreases b@.len(),
        {
            let ghost bv = b@;
            let it = b.remove(0);
            proof {
                assert(bv.map_values(|x: ParseItem| x@)[0] == it@);
                assert(b@.map_values(|x: ParseItem| x@) =~= bv.map_values(
                    |x: ParseItem| x@,
                ).drop_first());
                assert(b@.map_values(|x: ParseItem| x@) =~= all.skip(done + 1));
                assert(it@ == all[done]);
                lemma_load_from_snoc(old(self)@, all.take(done), all[done]);
                assert(all.take(done + 1) =~= all.take(done).push(all[done]));
            }
            self.apply_item(it);
            proof {
                done = done + 1;
            }
        }
        proof {
            assert(all.skip(done).len() == 0);
            assert(all.take(done) =~= all);
        }
    }

    /// Loads a scanned record stream into a fresh store.
    pub fn load(items: Vec<ParseItem>) -> (r: IndexStore)
        ensures
            r@ == spec_load(items@.map_values(|it: ParseItem| it@)),
            store_wf(r@),
    {
        let mut store = IndexStore::new();
        store.apply_batch(items);
        store
    }

    /// Number of directory records.
    pub fn dir_count(&self) -> (r: usize)
        ensures
            r == self@.dirs.len(),
    {
        self.dirs.len()
    }

    /// Number of file records.
    pub fn file_count(&self) -> (r: usize)
        ensures
            r == self@.files.len(),
    {
        self.files.len()
    }

    /// The aggregate summary: record counts and the root directory's
    /// path and reported size.  The root is the first directory record
    /// whose path has minimal character length.  A store without any
    /// directory record has no root and yields `EmptyReport`.
    pub fn summary(&self) -> (r: Result<AnalysisSummary, AnalysisError>)
        requires
            store_wf(self@),
        ensures
            match r {
                Ok(s) => self@.dirs.len() > 0 && s.total_dirs == self@.dirs.len()
                    && s.total_files == self@.files.len() && s.root_path@ == self@.dirs[root_idx(
                    self@.dirs,
                )].path && s.total_size_bytes == self@.dirs[root_idx(self@.dirs)].size_bytes,
                Err(e) => self@.dirs.len() == 0 && e == AnalysisError::EmptyReport,
            },
    {
        let nd = self.dirs.len();
        if nd == 0 {
            return Err(AnalysisError::EmptyReport);
        }
        let mut best: usize = 0;
        let mut best_len: usize = self.dirs[0].path.as_str().unicode_len();
        let mut i: usize = 1;
        proof {
            assert(self@.dirs.take(1).len() == 1);
            assert(root_idx(self@.dirs.take(1)) == 0);
            assert(self@.dirs.take(1)[0] == self@.dirs[0]);
        }
        while i < nd
            invariant
                1 <= i <= nd,
                nd == self@.dirs.len(),
                best < i,
                best as int == root_idx(self@.dirs.take(i as int)),
                best_len == self@.dirs[best as int].path.len(),
            decreases nd - i,
        {
            let cand_len = self.dirs[i].path.as_str().unicode_len();
            proof {
                let t = self@.dirs.take(i + 1);
                assert(t.drop_last() =~= self@.dirs.take(i as int));
                assert(t.last() == self@.dirs[i as int]);
                assert(t[root_idx(t.drop_last())] == self@.dirs[root_idx(t.drop_last())]);
            }
            if cand_len < best_len {
                best = i;
                best_len = cand_len;
            }
            i += 1;
        }
        proof {
            assert(self@.dirs.take(nd as int) =~= self@.dirs);
        }
        let root = &self.dirs[best];
        Ok(
            AnalysisSummary {
                total_size_bytes: root.size_bytes,
                total_dirs: nd as i64,
                total_files: self.files.len() as i64,
                root_path: root.path.clone(),
            },
        )
    }
}

/// Index of the root among directory records: the first one whose path
/// has minimal length.
pub open spec fn root_idx(dirs: Seq<DirModel>) -> int
    decreases dirs.len(),
{
    if dirs.len() <= 1 {
        0
    } else {
        let r = root_idx(dirs.drop_last());
        if dirs.last().path.len() < dirs[r].path.len() {
            dirs.len() - 1
        } else {
            r
        }
    }
}

pub proof fn lemma_root_idx(dirs: Seq<DirModel>)
    requires
        dirs.len() > 0,
    ensures
        0 <= root_idx(dirs) < dirs.len(),
        forall|i: int| 0 <= i < dirs.len() ==> dirs[root_idx(dirs)].path.len() <= (
        #[trigger] dirs[i]).path.len(),
        forall|i: int| 0 <= i < root_idx(dirs) ==> dirs[root_idx(dirs)].path.len() < (
        #[trigger] dirs[i]).path.len(),
    decreases dirs.len(),
{
    if dirs.len() > 1 {
        lemma_root_idx(dirs.drop_last());
        assert forall|i: int| 0 <= i < dirs.len() - 1 implies dirs.drop_last()[i]
            == dirs[i] by {}
    }
}

} // verus!
