//! Session state: the handle to the currently loaded index.
//!
//! At most one report is active at a time.  A successful ingest replaces
//! the active store wholesale — afterwards every query answers from the
//! new report's data and none of the old report's records remain
//! reachable.  A query before any ingest fails with `NoActiveIndex`.

use crate::query::{spec_dir_content, spec_search_files, spec_top_files};
use crate::records::{AnalysisError, AnalysisSummary, DirInfo, FileInfo};
use crate::scan::{scan_report, spec_scan};
use crate::store::{root_idx, spec_load, store_wf, IndexStore, StoreModel};
use vstd::prelude::*;

verus! {

/// What `parse_report` returns for a report's bytes: the summary of the
/// loaded store, or `EmptyReport` when it holds no directory record.
pub open spec fn summary_ok(m: StoreModel, r: Result<AnalysisSummary, AnalysisError>) -> bool {
    match r {
        Ok(s) => {
            &&& m.dirs.len() > 0
            &&& s.total_dirs == m.dirs.len()
            &&& s.total_files == m.files.len()
            &&& s.root_path@ == m.dirs[root_idx(m.dirs)].path
            &&& s.total_size_bytes == m.dirs[root_idx(m.dirs)].size_bytes
        },
        Err(e) => m.dirs.len() == 0 && e == AnalysisError::EmptyReport,
    }
}

/// The session: owner of the currently active index, if any.
pub struct Session {
    active: Option<IndexStore>,
}

impl View for Session {
    type V = Option<StoreModel>;

    closed spec fn view(&self) -> Option<StoreModel> {
        match self.active {
            Option::Some(ref s) => Option::Some(s@),
            Option::None => Option::None,
        }
    }
}

impl Session {
    /// Whatever store is active satisfies the store invariant.
    pub closed spec fn wf(&self) -> bool {
        match self.active {
            Option::Some(ref s) => store_wf(s@),
            Option::None => true,
        }
    }

    /// A session with no report loaded.
    pub fn new() -> (r: Session)
        ensures
            r@ is None,
            r.wf(),
    {
        Session { active: None }
    }

    /// Ingests a report's bytes: scans them once, loads the records into
    /// a fresh store, and replaces the active store with it.  Returns
    /// the summary, or `EmptyReport` when the report holds no directory
    /// entry — the fresh (empty) store is installed even then, exactly
    /// as a re-parse replaces query results wholesale.
    pub fn parse_report(&mut self, bytes: &[u8]) -> (r: Result<AnalysisSummary, AnalysisError>)
        ensures
            final (self)@ == Some(spec_load(spec_scan(bytes@))),
            final (self).wf(),
            summary_ok(spec_load(spec_scan(bytes@)), r),
    {
        let items = scan_report(bytes);
        let store = IndexStore::load(items);
        let summary = store.summary();
        self.active = Some(store);
        summary
    }

    /// Installs an already-loaded store as the active one, replacing any
    /// prior index; its summary is returned as from `parse_report`.
    pub fn install(&mut self, store: IndexStore) -> (r: Result<AnalysisSummary, AnalysisError>)
        requires
            store_wf(store@),
        ensures
            final (self)@ == Some(store@),
            final (self).wf(),
            summary_ok(store@, r),
    {
        let summary = store.summary();
        self.active = Some(store);
        summary
    }

    /// The immediate children of `path` in the active index, or
    /// `NoActiveIndex` when no report has been loaded.
    pub fn get_dir_content(&self, path: &String) -> (r: Result<
        (Vec<DirInfo>, Vec<FileInfo>),
        AnalysisError,
    >)
        ensures
            match r {
                Ok(dc) => self@ matches Some(m) && dc.0@.map_values(|d: DirInfo| d@)
                    == spec_dir_content(m, path@).0 && dc.1@.map_values(|f: FileInfo| f@)
                    == spec_dir_content(m, path@).1,
                Err(e) => self@ is None && e == AnalysisError::NoActiveIndex,
            },
    {
        match &self.active {
            None => Err(AnalysisError::NoActiveIndex),
            Some(store) => Ok(store.get_dir_content(path)),
        }
    }

    /// The files of the active index whose name or parent path contains
    /// `term`, by size descending, capped at `limit`; or `NoActiveIndex`.
    pub fn search_files(&self, term: &String, limit: i64) -> (r: Result<
        Vec<FileInfo>,
        AnalysisError,
    >)
        ensures
            match r {
                Ok(files) => self@ matches Some(m) && files@.map_values(|f: FileInfo| f@)
                    == spec_search_files(m, term@, limit as int),
                Err(e) => self@ is None && e == AnalysisError::NoActiveIndex,
            },
    {
        match &self.active {
            None => Err(AnalysisError::NoActiveIndex),
            Some(store) => Ok(store.search_files(term, limit)),
        }
    }

    /// The `limit` largest files of the active index, by size
    /// descending; or `NoActiveIndex`.
    pub fn get_top_files(&self, limit: i64) -> (r: Result<Vec<FileInfo>, AnalysisError>)
        ensures
            match r {
                Ok(files) => self@ matches Some(m) && files@.map_values(|f: FileInfo| f@)
                    == spec_top_files(m, limit as int),
                Err(e) => self@ is None && e == AnalysisError::NoActiveIndex,
            },
    {
        match &self.active {
            None => Err(AnalysisError::NoActiveIndex),
            Some(store) => Ok(store.get_top_files(limit)),
        }
    }
}

} // verus!
