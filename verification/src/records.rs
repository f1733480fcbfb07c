//! The record types a report parses into, together with their spec-level
//! models (`Seq<char>` paths and unbounded integers) used by contracts.

use vstd::prelude::*;
use vstd::string::StringExecFns;

verus! {

/// One file entry of a report: a leaf name under the directory entry most
/// recently seen before it.
#[derive(Debug)]
pub struct FileInfo {
    pub name: String,
    pub size_bytes: i64,
    pub size_str: String,
    pub parent_path: String,
}

/// One directory entry of a report, identified by its full path.
#[derive(Debug)]
pub struct DirInfo {
    pub path: String,
    pub size_bytes: i64,
    pub size_str: String,
}

/// The aggregate result of ingesting a report.
#[derive(Debug)]
pub struct AnalysisSummary {
    pub total_size_bytes: i64,
    pub total_dirs: i64,
    pub total_files: i64,
    pub root_path: String,
}

/// Spec-level model of a `FileInfo`.
pub struct FileModel {
    pub name: Seq<char>,
    pub size_bytes: int,
    pub size_str: Seq<char>,
    pub parent_path: Seq<char>,
}

/// Spec-level model of a `DirInfo`.
pub struct DirModel {
    pub path: Seq<char>,
    pub size_bytes: int,
    pub size_str: Seq<char>,
}

impl View for FileInfo {
    type V = FileModel;

    open spec fn view(&self) -> FileModel {
        FileModel {
            name: self.name@,
            size_bytes: self.size_bytes as int,
            size_str: self.size_str@,
            parent_path: self.parent_path@,
        }
    }
}

impl View for DirInfo {
    type V = DirModel;

    open spec fn view(&self) -> DirModel {
        DirModel {
            path: self.path@,
            size_bytes: self.size_bytes as int,
            size_str: self.size_str@,
        }
    }
}

impl Clone for FileInfo {
    fn clone(&self) -> (r: FileInfo)
        ensures
            r@ == self@,
    {
        FileInfo {
            name: self.name.clone(),
            size_bytes: self.size_bytes,
            size_str: self.size_str.clone(),
            parent_path: self.parent_path.clone(),
        }
    }
}

impl Clone for DirInfo {
    fn clone(&self) -> (r: DirInfo)
        ensures
            r@ == self@,
    {
        DirInfo {
            path: self.path.clone(),
            size_bytes: self.size_bytes,
            size_str: self.size_str.clone(),
        }
    }
}

impl Clone for AnalysisSummary {
    fn clone(&self) -> (r: AnalysisSummary)
        ensures
            r.total_size_bytes == self.total_size_bytes,
            r.total_dirs == self.total_dirs,
            r.total_files == self.total_files,
            r.root_path@ == self.root_path@,
    {
        AnalysisSummary {
            total_size_bytes: self.total_size_bytes,
            total_dirs: self.total_dirs,
            total_files: self.total_files,
            root_path: self.root_path.clone(),
        }
    }
}

/// The errors the query layer and the summary can return.
#[derive(Clone, Copy, PartialEq, Eq, Structural, Debug)]
pub enum AnalysisError {
    /// A query was issued before any report was successfully loaded.
    NoActiveIndex,
    /// A report produced no directory record, so it has no root to
    /// summarize.
    EmptyReport,
}

impl AnalysisError {
    /// A human-readable description of the error.
    pub fn message(&self) -> (r: String)
        ensures
            self is NoActiveIndex ==> r@ == "no report loaded"@,
            self is EmptyReport ==> r@ == "report holds no directory entry"@,
    {
        match self {
            AnalysisError::NoActiveIndex => String::from_str("no report loaded"),
            AnalysisError::EmptyReport => String::from_str("report holds no directory entry"),
        }
    }
}

/// One parsed report entry, as handed from the scanner to the store.
pub enum ParseItem {
    Directory(DirInfo),
    File(FileInfo),
}

/// Spec-level model of a `ParseItem`.
pub enum ItemModel {
    Directory(DirModel),
    File(FileModel),
}

impl View for ParseItem {
    type V = ItemModel;

    open spec fn view(&self) -> ItemModel {
        match self {
            ParseItem::Directory(d) => ItemModel::Directory(d@),
            ParseItem::File(f) => ItemModel::File(f@),
        }
    }
}

} // verus!
