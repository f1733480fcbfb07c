//! The line scanner and classifier: walks a report's bytes once, splits
//! them into lines, and classifies each line as a directory entry, a file
//! entry under the most recent directory, or noise to skip.
//!
//! A directory line holds a path, then a trailing bracketed size
//! annotation introduced by the last `" ["` on the line; the size token
//! runs to the matching `]`, or to the end of the line when the bracket
//! is never closed.  A file line starts with exactly two spaces and `[`;
//! its token is the bracketed content and its name follows the `]`.  A
//! file line seen before any directory line is dropped.  Blank lines are
//! skipped and do not reset the current parent.

use crate::bytes::{
    find_byte, first_match, is_ascii_ws, is_ws_byte, lemma_first_match, lemma_first_match_is,
    lemma_trim_hi_is, trim_hi, trim_slice, trimmed,
};
use crate::records::{DirInfo, DirModel, FileInfo, FileModel, ItemModel, ParseItem};
use crate::size::{parse_size_bytes, parsed_size};
use crate::text::{decode_lossy, decoded};
use vstd::prelude::*;
use vstd::slice::slice_subrange;

verus! {

/// A file entry line: exactly two spaces, then `[`.
pub open spec fn is_file_line(line: Seq<u8>) -> bool {
    line.len() >= 3 && line[0] == 32 && line[1] == 32 && line[2] == 91
}

/// Index of the last occurrence of `" ["` in `s`, or -1 if there is none.
pub open spec fn last_marker(s: Seq<u8>) -> int
    decreases s.len(),
{
    if s.len() < 2 {
        -1
    } else if s[s.len() - 2] == 32 && s[s.len() - 1] == 91 {
        s.len() - 2
    } else {
        last_marker(s.drop_last())
    }
}

/// How one line advances the scan: the item it yields, if any, and the
/// current parent afterwards.
pub open spec fn spec_step(st: Option<Seq<char>>, line: Seq<u8>) -> (Option<ItemModel>, Option<
    Seq<char>,
>) {
    if trimmed(line).len() == 0 {
        (None, st)
    } else if is_file_line(line) {
        match st {
            Option::None => (None, st),
            Option::Some(parent) => {
                let c = first_match(line, |b: u8| b == 93);
                if c == line.len() {
                    (None, st)
                } else {
                    let size_raw = trimmed(line.subrange(3, c));
                    let name_raw = trimmed(line.subrange(c + 1, line.len() as int));
                    (
                        Some(
                            ItemModel::File(
                                FileModel {
                                    name: decoded(name_raw),
                                    size_bytes: parsed_size(size_raw),
                                    size_str: decoded(size_raw),
                                    parent_path: parent,
                                },
                            ),
                        ),
                        st,
                    )
                }
            },
        }
    } else {
        let mi = last_marker(line);
        if mi < 0 {
            (None, st)
        } else {
            let path_raw = trimmed(line.take(mi));
            let rest = line.skip(mi + 2);
            let c = first_match(rest, |b: u8| b == 93);
            let tok = if c < rest.len() {
                rest.take(c)
            } else {
                rest.take(trim_hi(rest))
            };
            let path = decoded(path_raw);
            (
                Some(
                    ItemModel::Directory(
                        DirModel { path: path, size_bytes: parsed_size(tok), size_str: decoded(tok) },
                    ),
                ),
                Some(path),
            )
        }
    }
}

/// The lines of a byte stream, split at line feeds; a final line needs no
/// terminator.
pub open spec fn spec_lines(b: Seq<u8>) -> Seq<Seq<u8>>
    decreases b.len(),
    via spec_lines_dec
{
    if b.len() == 0 {
        Seq::empty()
    } else {
        let e = first_match(b, |x: u8| x == 10);
        if e == b.len() {
            seq![b]
        } else {
            seq![b.take(e)] + spec_lines(b.skip(e + 1))
        }
    }
}

#[via_fn]
proof fn spec_lines_dec(b: Seq<u8>) {
    if b.len() != 0 {
        lemma_first_match(b, |x: u8| x == 10);
    }
}

/// The items a sequence of lines scans to from a given parent state, and
/// the state afterwards.
pub open spec fn spec_scan_lines(lines: Seq<Seq<u8>>, st: Option<Seq<char>>) -> (Seq<ItemModel>, Option<
    Seq<char>,
>)
    decreases lines.len(),
{
    if lines.len() == 0 {
        (Seq::empty(), st)
    } else {
        let step = spec_step(st, lines[0]);
        let rest = spec_scan_lines(lines.drop_first(), step.1);
        (opt_item_seq(step.0) + rest.0, rest.1)
    }
}

pub open spec fn opt_item_seq(it: Option<ItemModel>) -> Seq<ItemModel> {
    match it {
        Option::Some(i) => seq![i],
        Option::None => Seq::empty(),
    }
}

/// All items a report's bytes scan to, in order, starting with no parent.
pub open spec fn spec_scan(b: Seq<u8>) -> Seq<ItemModel> {
    spec_scan_lines(spec_lines(b), Option::None).0
}

/// Scanning a concatenation of line blocks chains the items and threads
/// the parent state through.
pub proof fn lemma_scan_lines_concat(l1: Seq<Seq<u8>>, l2: Seq<Seq<u8>>, st: Option<Seq<char>>)
    ensures
        spec_scan_lines(l1 + l2, st).0 == spec_scan_lines(l1, st).0 + spec_scan_lines(
            l2,
            spec_scan_lines(l1, st).1,
        ).0,
        spec_scan_lines(l1 + l2, st).1 == spec_scan_lines(l2, spec_scan_lines(l1, st).1).1,
    decreases l1.len(),
{
    if l1.len() == 0 {
        assert(l1 + l2 =~= l2);
        assert(spec_scan_lines(l1, st).0 + spec_scan_lines(l2, st).0 =~= spec_scan_lines(
            l2,
            st,
        ).0);
    } else {
        let step = spec_step(st, l1[0]);
        lemma_scan_lines_concat(l1.drop_first(), l2, step.1);
        assert((l1 + l2).drop_first() =~= l1.drop_first() + l2);
        assert((l1 + l2)[0] == l1[0]);
        assert(opt_item_seq(step.0) + (spec_scan_lines(l1.drop_first(), step.1).0
            + spec_scan_lines(l2, spec_scan_lines(l1, st).1).0) =~= (opt_item_seq(step.0)
            + spec_scan_lines(l1.drop_first(), step.1).0) + spec_scan_lines(
            l2,
            spec_scan_lines(l1, st).1,
        ).0);
    }
}

/// Scanning a single line yields that line's item and state.
pub proof fn lemma_scan_single(l: Seq<u8>, st: Option<Seq<char>>)
    ensures
        spec_scan_lines(seq![l], st).0 == opt_item_seq(spec_step(st, l).0),
        spec_scan_lines(seq![l], st).1 == spec_step(st, l).1,
{
    let ls = seq![l];
    assert(ls[0] == l);
    assert(ls.drop_first() =~= Seq::<Seq<u8>>::empty());
    assert(spec_scan_lines(Seq::<Seq<u8>>::empty(), spec_step(st, l).1).0
        =~= Seq::<ItemModel>::empty());
    assert(opt_item_seq(spec_step(st, l).0) + Seq::<ItemModel>::empty() =~= opt_item_seq(
        spec_step(st, l).0,
    ));
}

pub open spec fn item_view(r: Option<ParseItem>) -> Option<ItemModel> {
    match r {
        Option::Some(it) => Option::Some(it@),
        Option::None => Option::None,
    }
}

/// The scanner's mutable state: the path of the directory entry most
/// recently seen, which subsequent file entries attach to.
pub struct Scanner {
    current_parent: Option<String>,
}

impl View for Scanner {
    type V = Option<Seq<char>>;

    closed spec fn view(&self) -> Option<Seq<char>> {
        match self.current_parent {
            Option::Some(ref p) => Option::Some(p@),
            Option::None => Option::None,
        }
    }
}

impl Scanner {
    /// A scanner that has seen no directory entry yet.
    pub fn new() -> (r: Scanner)
        ensures
            r@ == Option::<Seq<char>>::None,
    {
        Scanner { current_parent: None }
    }

    /// Classifies one line, returns the record it yields, if any, and
    /// advances the current parent exactly as `spec_step` says.
    pub fn feed_line(&mut self, line: &[u8]) -> (r: Option<ParseItem>)
        ensures
            item_view(r) == spec_step(old(self)@, line@).0,
            final (self)@ == spec_step(old(self)@, line@).1,
    {
        let n = line.len();
        let t = trim_slice(line);
        if t.len() == 0 {
            return None;
        }
        if n >= 3 && line[0] == 32 && line[1] == 32 && line[2] == 91 {
            // A file entry; it needs an established parent and a closing
            // bracket.
            match &self.current_parent {
                None => None,
                Some(parent) => {
                    let mut c: usize = 0;
                    while c < n && line[c] != 93
                        invariant
                            0 <= c <= n,
                            n == line@.len(),
                            forall|j: int| 0 <= j < c ==> line@[j] != 93,
                        decreases n - c,
                    {
                        c += 1;
                    }
                    proof {
                        lemma_first_match_is(line@, |b: u8| b == 93, c as int);
                    }
                    if c == n {
                        return None;
                    }
                    let size_raw = trim_slice(slice_subrange(line, 3, c));
                    let name_raw = trim_slice(slice_subrange(line, c + 1, n));
                    let size_val = parse_size_bytes(size_raw);
                    let f = FileInfo {
                        name: decode_lossy(name_raw),
                        size_bytes: size_val,
                        size_str: decode_lossy(size_raw),
                        parent_path: parent.clone(),
                    };
                    Some(ParseItem::File(f))
                },
            }
        } else {
            // A directory entry candidate: find the last `" ["` marker.
            let mut end: usize = n;
            let mut found: bool = false;
            let mut mi: usize = 0;
            proof {
                assert(line@.take(n as int) =~= line@);
            }
            while end >= 2 && !found
                invariant
                    0 <= end <= n,
                    n == line@.len(),
                    !found ==> last_marker(line@) == last_marker(line@.take(end as int)),
                    found ==> mi + 2 <= n && last_marker(line@) == mi as int,
                    found ==> end >= 2,
                decreases 2 * end + (if found {
                    0int
                } else {
                    1int
                }),
            {
                if line[end - 2] == 32 && line[end - 1] == 91 {
                    mi = end - 2;
                    proof {
                        let te = line@.take(end as int);
                        assert(te[end - 2] == line@[end - 2]);
                        assert(te[end - 1] == line@[end - 1]);
                        assert(last_marker(te) == end - 2);
                    }
                    found = true;
                } else {
                    proof {
                        let te = line@.take(end as int);
                        assert(te.drop_last() =~= line@.take(end - 1));
                        assert(te[end - 2] == line@[end - 2]);
                        assert(te[end - 1] == line@[end - 1]);
                    }
                    end -= 1;
                }
            }
            if !found {
                proof {
                    assert(line@.take(end as int).len() < 2);
                    assert(last_marker(line@) == -1);
                }
                return None;
            }
            let path_raw = trim_slice(slice_subrange(line, 0, mi));
            proof {
                assert(line@.subrange(0, mi as int) =~= line@.take(mi as int));
            }
            let rest = slice_subrange(line, mi + 2, n);
            let rl = rest.len();
            let mut c: usize = 0;
            while c < rl && rest[c] != 93
                invariant
                    0 <= c <= rl,
                    rl == rest@.len(),
                    forall|j: int| 0 <= j < c ==> rest@[j] != 93,
                decreases rl - c,
            {
                c += 1;
            }
            proof {
                lemma_first_match_is(rest@, |b: u8| b == 93, c as int);
            }
            let tok: &[u8] = if c < rl {
                slice_subrange(rest, 0, c)
            } else {
                let mut te: usize = rl;
                while te > 0 && is_ws_byte(rest[te - 1])
                    invariant
                        0 <= te <= rl,
                        rl == rest@.len(),
                        forall|j: int| te <= j < rl ==> is_ascii_ws(rest@[j]),
                    decreases te,
                {
                    te -= 1;
                }
                proof {
                    lemma_trim_hi_is(rest@, te as int);
                }
                slice_subrange(rest, 0, te)
            };
            let path = decode_lossy(path_raw);
            let d = DirInfo {
                path: path.clone(),
                size_bytes: parse_size_bytes(tok),
                size_str: decode_lossy(tok),
            };
            self.current_parent = Some(path);
            Some(ParseItem::Directory(d))
        }
    }
}

/// Scans a whole report: splits its bytes into lines, classifies each,
/// and yields the parsed items in order.
pub fn scan_report(bytes: &[u8]) -> (items: Vec<ParseItem>)
    ensures
        items@.map_values(|it: ParseItem| it@) == spec_scan(bytes@),
{
    let n = bytes.len();
    let mut scanner = Scanner::new();
    let mut items: Vec<ParseItem> = Vec::new();
    let mut cursor: usize = 0;
    let ghost mut processed: Seq<Seq<u8>> = Seq::empty();
    proof {
        assert(bytes@.skip(0) =~= bytes@);
        assert(processed + spec_lines(bytes@) =~= spec_lines(bytes@));
        assert(items@.map_values(|it: ParseItem| it@) =~= Seq::<ItemModel>::empty());
    }
    while cursor < n
        invariant
            0 <= cursor <= n,
            n == bytes@.len(),
            spec_lines(bytes@) == processed + spec_lines(bytes@.skip(cursor as int)),
            items@.map_values(|it: ParseItem| it@) == spec_scan_lines(processed, Option::None).0,
            scanner@ == spec_scan_lines(processed, Option::None).1,
        decreases n - cursor,
    {
        let rest = slice_subrange(bytes, cursor, n);
        let e: usize = match find_byte(10, rest) {
            Some(i) => i,
            None => rest.len(),
        };
        proof {
            lemma_first_match_is(rest@, |x: u8| x == 10, e as int);
        }
        let line = slice_subrange(rest, 0, e);
        let r = scanner.feed_line(line);
        let ghost old_items = items@;
        let ghost gr = r;
        match r {
            Some(item) => {
                items.push(item);
            },
            None => {},
        }
        proof {
            let sk = bytes@.skip(cursor as int);
            assert(sk == rest@);
            lemma_scan_lines_concat(processed, seq![line@], Option::None);
            let stp = spec_scan_lines(processed, Option::None).1;
            lemma_scan_single(line@, stp);
            match gr {
                Some(item) => {
                    assert(items@ =~= old_items.push(item));
                    assert(items@.map_values(|it: ParseItem| it@) =~= old_items.map_values(
                        |it: ParseItem| it@,
                    ).push(item@));
                },
                None => {
                    assert(items@.map_values(|it: ParseItem| it@) =~= old_items.map_values(
                        |it: ParseItem| it@,
                    ) + opt_item_seq(spec_step(stp, line@).0));
                },
            }
            if e == rest@.len() {
                assert(line@ =~= sk);
                assert(spec_lines(sk) =~= seq![line@]);
                assert(spec_lines(bytes@.skip(n as int)) =~= Seq::<Seq<u8>>::empty());
                assert(processed.push(line@) + spec_lines(bytes@.skip(n as int))
                    =~= processed + spec_lines(sk));
                processed = processed + seq![line@];
            } else {
                assert(sk.take(e as int) == line@);
                assert(sk.skip(e + 1) =~= bytes@.skip(cursor + e + 1));
                assert(spec_lines(sk) =~= seq![line@] + spec_lines(sk.skip(e + 1)));
                assert(processed + seq![line@] + spec_lines(bytes@.skip(cursor + e + 1))
                    =~= processed + spec_lines(sk));
                processed = processed + seq![line@];
            }
            assert(items@.map_values(|it: ParseItem| it@) =~= spec_scan_lines(
                processed,
                Option::None,
            ).0);
        }
        cursor = if e == n - cursor {
            n
        } else {
            cursor + e + 1
        };
    }
    proof {
        assert(spec_lines(bytes@.skip(n as int)) =~= Seq::<Seq<u8>>::empty());
        assert(processed =~= spec_lines(bytes@));
    }
    items
}

} // verus!
