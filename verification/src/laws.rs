//! Laws of the library, each proved once and for all: the size-token
//! round trip, the exact file count of a load, parent uniqueness, the
//! immediate-child depth bound, determinism of parsing, and the
//! harmlessness of malformed lines.

use crate::bytes::{is_ascii_alpha, is_ascii_digit, lemma_first_match_is, trimmed};
use crate::query::{spec_dir_content, spec_search_files, spec_top_files};
use crate::records::{DirModel, FileModel, ItemModel};
use crate::scan::{
    is_file_line, last_marker, lemma_scan_lines_concat, lemma_scan_single, opt_item_seq,
    spec_lines, spec_scan, spec_scan_lines, spec_step,
};
use crate::size::{
    digits_of, digits_val, frac_digits, int_digits, parsed_size, pow10, sep_idx, token_bytes,
    unit_mult, unit_start, unit_token,
};
use crate::store::{
    dir_find, dirs_wf, lemma_dir_find, parent_present, spec_apply, spec_load, spec_load_from,
    store_wf, StoreModel,
};
use crate::text::is_immediate_child;
use vstd::prelude::*;

verus! {

proof fn lemma_digits_of_all_digits(s: Seq<u8>)
    requires
        forall|i: int| 0 <= i < s.len() ==> is_ascii_digit(s[i]),
    ensures
        digits_of(s) == s,
    decreases s.len(),
{
    if s.len() > 0 {
        lemma_digits_of_all_digits(s.drop_last());
        assert(digits_of(s.drop_last()).push(s.last()) =~= s);
    }
}

/// The size-token round trip: a token written as decimal digits followed
/// by a unit parses back to the digits' value times the unit's byte
/// multiplier, saturated at `i64::MAX`.
pub proof fn lemma_size_round_trip(ds: Seq<u8>, u: Seq<u8>)
    requires
        ds.len() > 0,
        forall|i: int| 0 <= i < ds.len() ==> is_ascii_digit(ds[i]),
        forall|i: int| 0 <= i < u.len() ==> is_ascii_alpha(u[i]),
    ensures
        token_bytes(ds + u) == digits_val(ds) * unit_mult(u),
        parsed_size(ds + u) == if digits_val(ds) * unit_mult(u) <= i64::MAX {
            digits_val(ds) * unit_mult(u)
        } else {
            i64::MAX as int
        },
{
    let s = ds + u;
    let dl = ds.len() as int;
    assert forall|j: int| 0 <= j < dl implies !is_ascii_alpha(s[j]) by {
        assert(s[j] == ds[j]);
    }
    if u.len() > 0 {
        assert(s[dl] == u[0]);
    }
    lemma_first_match_is(s, |b: u8| is_ascii_alpha(b), dl);
    assert(unit_start(s) == dl);
    let region = s.take(dl);
    assert(region =~= ds);
    assert forall|j: int| 0 <= j < dl implies !(region[j] == 46 || region[j] == 44) by {
        assert(region[j] == ds[j]);
    }
    lemma_first_match_is(region, |b: u8| b == 46 || b == 44, dl);
    assert(sep_idx(s) == dl);
    assert(s.take(sep_idx(s)) =~= ds);
    lemma_digits_of_all_digits(ds);
    assert(int_digits(s) == ds);
    assert(s.subrange(sep_idx(s), unit_start(s)) =~= Seq::<u8>::empty());
    assert(frac_digits(s) =~= Seq::<u8>::empty());
    assert(digits_val(frac_digits(s)) == 0);
    assert(pow10(0) == 1);
    let un = s.skip(dl);
    assert(un =~= u);
    assert forall|j: int| 0 <= j < un.len() implies is_ascii_alpha(un[j]) by {
        assert(un[j] == u[j]);
    }
    lemma_first_match_is(un, |b: u8| !is_ascii_alpha(b), un.len() as int);
    assert(unit_token(s) =~= u);
    let m = unit_mult(u);
    assert((0 * m) / 1 == 0);
    assert(token_bytes(s) == digits_val(ds) * m);
}

/// The fractional round trip: a token written as integer digits, a dot,
/// fractional digits and a unit parses back to the exactly scaled value,
/// truncated toward zero.
pub proof fn lemma_size_round_trip_fractional(ds1: Seq<u8>, ds2: Seq<u8>, u: Seq<u8>)
    requires
        ds1.len() > 0,
        forall|i: int| 0 <= i < ds1.len() ==> is_ascii_digit(ds1[i]),
        forall|i: int| 0 <= i < ds2.len() ==> is_ascii_digit(ds2[i]),
        forall|i: int| 0 <= i < u.len() ==> is_ascii_alpha(u[i]),
    ensures
        token_bytes(ds1 + seq![46u8] + ds2 + u) == digits_val(ds1) * unit_mult(u) + (digits_val(
            ds2,
        ) * unit_mult(u)) / pow10(ds2.len()),
{
    let s = ds1 + seq![46u8] + ds2 + u;
    let d1 = ds1.len() as int;
    let d2 = ds2.len() as int;
    let us = d1 + 1 + d2;
    assert forall|j: int| 0 <= j < us implies !is_ascii_alpha(s[j]) by {
        if j < d1 {
            assert(s[j] == ds1[j]);
        } else if j == d1 {
            assert(s[j] == 46);
        } else {
            assert(s[j] == ds2[j - d1 - 1]);
        }
    }
    if u.len() > 0 {
        assert(s[us] == u[0]);
    }
    lemma_first_match_is(s, |b: u8| is_ascii_alpha(b), us);
    assert(unit_start(s) == us);
    let region = s.take(us);
    assert forall|j: int| 0 <= j < d1 implies !(region[j] == 46 || region[j] == 44) by {
        assert(region[j] == ds1[j]);
    }
    assert(region[d1] == 46);
    lemma_first_match_is(region, |b: u8| b == 46 || b == 44, d1);
    assert(sep_idx(s) == d1);
    assert(s.take(sep_idx(s)) =~= ds1);
    lemma_digits_of_all_digits(ds1);
    assert(int_digits(s) == ds1);
    let fr = s.subrange(sep_idx(s), unit_start(s));
    assert(fr =~= seq![46u8] + ds2);
    crate::size::lemma_digits_of_concat(seq![46u8], ds2);
    assert(seq![46u8] =~= Seq::<u8>::empty().push(46u8));
    crate::size::lemma_digits_of_push(Seq::<u8>::empty(), 46u8);
    assert(digits_of(Seq::<u8>::empty()) =~= Seq::<u8>::empty());
    assert(digits_of(seq![46u8]) =~= Seq::<u8>::empty());
    lemma_digits_of_all_digits(ds2);
    assert(Seq::<u8>::empty() + ds2 =~= ds2);
    assert(frac_digits(s) == ds2);
    let un = s.skip(us);
    assert(un =~= u);
    assert forall|j: int| 0 <= j < un.len() implies is_ascii_alpha(un[j]) by {
        assert(un[j] == u[j]);
    }
    lemma_first_match_is(un, |b: u8| !is_ascii_alpha(b), un.len() as int);
    assert(unit_token(s) =~= u);
}

/// The parent path a file item carries, if the item is one.
pub open spec fn item_parent(it: ItemModel) -> Option<Seq<char>> {
    match it {
        ItemModel::File(f) => Some(f.parent_path),
        ItemModel::Directory(_) => None,
    }
}

/// The `j`th item is a directory item with path `p`.
pub open spec fn dir_item_with(items: Seq<ItemModel>, j: int, p: Seq<char>) -> bool {
    match items[j] {
        ItemModel::Directory(d) => d.path == p,
        ItemModel::File(_) => false,
    }
}

/// The file items of a parsed stream, in order.
pub open spec fn file_payloads(items: Seq<ItemModel>) -> Seq<FileModel>
    decreases items.len(),
{
    if items.len() == 0 {
        Seq::empty()
    } else {
        match items[0] {
            ItemModel::File(f) => seq![f] + file_payloads(items.drop_first()),
            _ => file_payloads(items.drop_first()),
        }
    }
}

/// Every file item can name its parent: a directory already among
/// `dirs`, or one introduced by an earlier directory item of the stream.
pub open spec fn coherent_wrt(dirs: Seq<DirModel>, items: Seq<ItemModel>) -> bool {
    forall|k: int|
        0 <= k < items.len() ==> (item_parent(#[trigger] items[k]) matches Some(pp) ==> (
        parent_present(dirs, pp) || exists|j: int|
            0 <= j < k && #[trigger] dir_item_with(items, j, pp)))
}

proof fn lemma_present_find(dirs: Seq<DirModel>, p: Seq<char>)
    ensures
        parent_present(dirs, p) <==> dir_find(dirs, p) < dirs.len(),
{
    lemma_dir_find(dirs, p);
    if parent_present(dirs, p) {
        let w = choose|i: int| 0 <= i < dirs.len() && (#[trigger] dirs[i]).path == p;
        if dir_find(dirs, p) == dirs.len() {
            assert(dirs[w].path != p);
            assert(false);
        }
    }
    if dir_find(dirs, p) < dirs.len() {
        assert(dirs[dir_find(dirs, p)].path == p);
        assert(parent_present(dirs, p));
    }
}

/// Applying a record never loses a directory path.
proof fn lemma_apply_keeps_parent(m: StoreModel, it: ItemModel, p: Seq<char>)
    requires
        parent_present(m.dirs, p),
    ensures
        parent_present(spec_apply(m, it).dirs, p),
{
    let w = choose|i: int| 0 <= i < m.dirs.len() && (#[trigger] m.dirs[i]).path == p;
    let nd = spec_apply(m, it).dirs;
    match it {
        ItemModel::Directory(d) => {
            let k = dir_find(m.dirs, d.path);
            lemma_dir_find(m.dirs, d.path);
            if k < m.dirs.len() && w == k {
                assert(m.dirs[k].path == d.path);
                assert(nd[k].path == p);
            } else {
                assert(nd[w].path == p);
            }
        },
        ItemModel::File(_) => {
            assert(nd[w].path == p);
        },
    }
}

/// Applying a directory record makes its path present.
proof fn lemma_apply_dir_present(m: StoreModel, d: DirModel)
    requires
        m.dirs.len() < i64::MAX,
    ensures
        parent_present(spec_apply(m, ItemModel::Directory(d)).dirs, d.path),
{
    let k = dir_find(m.dirs, d.path);
    lemma_dir_find(m.dirs, d.path);
    let nd = spec_apply(m, ItemModel::Directory(d)).dirs;
    if k < m.dirs.len() {
        assert(nd[k].path == d.path);
    } else {
        assert(nd[m.dirs.len() as int].path == d.path);
    }
}

/// A coherent stream loads without losing a row: the store's file
/// records afterwards are exactly those before plus the stream's file
/// items, in order.
pub proof fn lemma_load_files_exact(m: StoreModel, items: Seq<ItemModel>)
    requires
        coherent_wrt(m.dirs, items),
        m.dirs.len() + items.len() <= i64::MAX,
        m.files.len() + items.len() <= i64::MAX,
    ensures
        spec_load_from(m, items).files == m.files + file_payloads(items),
    decreases items.len(),
{
    if items.len() == 0 {
        assert(m.files + file_payloads(items) =~= m.files);
    } else {
        let it = items[0];
        let tail = items.drop_first();
        let m1 = spec_apply(m, it);
        assert(items[0] == it);
        assert forall|k: int|
            0 <= k < tail.len() implies (item_parent(#[trigger] tail[k]) matches Some(pp) ==> (
        parent_present(m1.dirs, pp) || exists|j: int|
            0 <= j < k && #[trigger] dir_item_with(tail, j, pp))) by {
            if item_parent(tail[k]) is Some {
                let pp = item_parent(tail[k])->Some_0;
                assert(tail[k] == items[k + 1]);
                if parent_present(m.dirs, pp) {
                    lemma_apply_keeps_parent(m, it, pp);
                } else {
                    let j = choose|j: int| 0 <= j < k + 1 && #[trigger] dir_item_with(items, j, pp);
                    if j == 0 {
                        match it {
                            ItemModel::Directory(d) => {
                                assert(d.path == pp);
                                lemma_apply_dir_present(m, d);
                            },
                            ItemModel::File(_) => {
                                assert(false);
                            },
                        }
                    } else {
                        assert(tail[j - 1] == items[j]);
                        assert(dir_item_with(tail, j - 1, pp));
                    }
                }
            }
        }
        match it {
            ItemModel::Directory(d) => {
                lemma_dir_find(m.dirs, d.path);
                assert(m1.dirs.len() <= m.dirs.len() + 1);
                assert(m1.files == m.files);
                lemma_load_files_exact(m1, tail);
                assert(file_payloads(items) == file_payloads(tail));
            },
            ItemModel::File(f) => {
                assert(item_parent(items[0]) == Some(f.parent_path));
                assert(parent_present(m.dirs, f.parent_path));
                lemma_present_find(m.dirs, f.parent_path);
                assert(m1.files == m.files.push(f));
                assert(m1.dirs == m.dirs);
                lemma_load_files_exact(m1, tail);
                assert(m.files.push(f) + file_payloads(tail) =~= m.files + (seq![f]
                    + file_payloads(tail)));
            },
        }
    }
}

/// The scan only emits file items whose parent an earlier directory item
/// (or one already among `dirs`) provides.
pub proof fn lemma_scan_coherent(lines: Seq<Seq<u8>>, st: Option<Seq<char>>, dirs: Seq<DirModel>)
    requires
        st matches Some(p) ==> parent_present(dirs, p),
    ensures
        coherent_wrt(dirs, spec_scan_lines(lines, st).0),
    decreases lines.len(),
{
    if lines.len() > 0 {
        let step = spec_step(st, lines[0]);
        let items = spec_scan_lines(lines, st).0;
        let rest = spec_scan_lines(lines.drop_first(), step.1).0;
        assert(items == opt_item_seq(step.0) + rest);
        match step.0 {
            Option::None => {
                assert(step.1 == st);
                lemma_scan_coherent(lines.drop_first(), st, dirs);
                assert(items =~= rest);
                assert forall|k: int|
                    0 <= k < items.len() implies (item_parent(#[trigger] items[k]) matches Some(pp)
                    ==> (parent_present(dirs, pp) || exists|j: int|
                    0 <= j < k && #[trigger] dir_item_with(items, j, pp))) by {
                    if item_parent(items[k]) is Some {
                        let pp = item_parent(items[k])->Some_0;
                        assert(items[k] == rest[k]);
                        if !parent_present(dirs, pp) {
                            let j = choose|j: int|
                                0 <= j < k && #[trigger] dir_item_with(rest, j, pp);
                            assert(items[j] == rest[j]);
                            assert(dir_item_with(items, j, pp));
                        }
                    }
                }
            },
            Option::Some(it) => {
                let dirs2 = match it {
                    ItemModel::Directory(d) => dirs.push(d),
                    ItemModel::File(_) => dirs,
                };
                match it {
                    ItemModel::Directory(d) => {
                        assert(step.1 == Some(d.path));
                        assert(dirs2[dirs.len() as int].path == d.path);
                        assert(parent_present(dirs2, d.path));
                    },
                    ItemModel::File(f) => {
                        assert(step.1 == st);
                    },
                }
                lemma_scan_coherent(lines.drop_first(), step.1, dirs2);
                assert forall|k: int|
                    0 <= k < items.len() implies (item_parent(#[trigger] items[k]) matches Some(pp)
                    ==> (parent_present(dirs, pp) || exists|j: int|
                    0 <= j < k && #[trigger] dir_item_with(items, j, pp))) by {
                    if item_parent(items[k]) is Some {
                        let pp = item_parent(items[k])->Some_0;
                        if k == 0 {
                            // a file item emitted directly: its parent is the
                            // incoming state, already present among `dirs`
                            assert(items[0] == it);
                            match it {
                                ItemModel::File(f) => {
                                    assert(st matches Some(p) && f.parent_path == p);
                                    assert(parent_present(dirs, pp));
                                },
                                ItemModel::Directory(_) => {
                                    assert(item_parent(it) is None);
                                },
                            }
                        } else {
                            assert(items[k] == rest[k - 1]);
                            if !parent_present(dirs2, pp) {
                                let j = choose|j: int|
                                    0 <= j < k - 1 && #[trigger] dir_item_with(rest, j, pp);
                                assert(items[j + 1] == rest[j]);
                                assert(dir_item_with(items, j + 1, pp));
                            } else {
                                if !parent_present(dirs, pp) {
                                    // the parent is the directory emitted at 0
                                    let w = choose|i: int|
                                        0 <= i < dirs2.len() && (#[trigger] dirs2[i]).path == pp;
                                    match it {
                                        ItemModel::Directory(d) => {
                                            if w < dirs.len() {
                                                assert(dirs[w].path == pp);
                                                assert(false);
                                            }
                                            assert(d.path == pp);
                                            assert(items[0] == it);
                                            assert(dir_item_with(items, 0, pp));
                                        },
                                        ItemModel::File(_) => {
                                            assert(dirs2 == dirs);
                                            assert(false);
                                        },
                                    }
                                }
                            }
                        }
                    }
                }
            },
        }
    }
}

proof fn lemma_scan_count(lines: Seq<Seq<u8>>, st: Option<Seq<char>>)
    ensures
        spec_scan_lines(lines, st).0.len() <= lines.len(),
    decreases lines.len(),
{
    if lines.len() > 0 {
        let step = spec_step(st, lines[0]);
        lemma_scan_count(lines.drop_first(), step.1);
    }
}

proof fn lemma_lines_count(b: Seq<u8>)
    ensures
        spec_lines(b).len() <= b.len(),
    decreases b.len(),
{
    if b.len() > 0 {
        let e = crate::bytes::first_match(b, |x: u8| x == 10);
        crate::bytes::lemma_first_match(b, |x: u8| x == 10);
        if e < b.len() {
            lemma_lines_count(b.skip(e + 1));
        }
    }
}

/// The store a report loads into holds one file record per accepted file
/// line, in stream order: nothing is lost and nothing is invented.
pub proof fn lemma_total_files(b: Seq<u8>)
    requires
        b.len() <= i64::MAX,
    ensures
        spec_load(spec_scan(b)).files == file_payloads(spec_scan(b)),
{
    let items = spec_scan(b);
    lemma_scan_coherent(spec_lines(b), Option::None, Seq::<DirModel>::empty());
    lemma_scan_count(spec_lines(b), Option::None);
    lemma_lines_count(b);
    lemma_load_files_exact(crate::store::empty_store(), items);
    assert(crate::store::empty_store().files + file_payloads(items) =~= file_payloads(items));
}

/// A file line seen before any directory line yields nothing: every file
/// item the scan emits follows some directory item of the same scan.
pub proof fn lemma_no_parent_no_files(lines: Seq<Seq<u8>>, k: int)
    requires
        0 <= k < spec_scan_lines(lines, Option::None).0.len(),
        item_parent(spec_scan_lines(lines, Option::None).0[k]) is Some,
    ensures
        exists|j: int|
            0 <= j < k && #[trigger] dir_item_with(
                spec_scan_lines(lines, Option::None).0,
                j,
                item_parent(spec_scan_lines(lines, Option::None).0[k])->0,
            ),
{
    let dirs = Seq::<DirModel>::empty();
    lemma_scan_coherent(lines, Option::None, dirs);
    let items = spec_scan_lines(lines, Option::None).0;
    let pp = item_parent(items[k])->0;
    assert(!parent_present(dirs, pp));
}

/// Number of directory records carrying path `p`.
pub open spec fn count_dirs_with_path(dirs: Seq<DirModel>, p: Seq<char>) -> int
    decreases dirs.len(),
{
    if dirs.len() == 0 {
        0
    } else {
        count_dirs_with_path(dirs.drop_last(), p) + if dirs.last().path == p {
            1int
        } else {
            0int
        }
    }
}

proof fn lemma_count_unique(dirs: Seq<DirModel>, p: Seq<char>)
    requires
        dirs_wf(dirs),
    ensures
        count_dirs_with_path(dirs, p) == if parent_present(dirs, p) {
            1int
        } else {
            0int
        },
    decreases dirs.len(),
{
    if dirs.len() > 0 {
        let dl = dirs.drop_last();
        assert forall|i: int, j: int| 0 <= i < j < dl.len() implies (#[trigger] dl[i]).path != (
        #[trigger] dl[j]).path by {
            assert(dl[i] == dirs[i]);
            assert(dl[j] == dirs[j]);
        }
        lemma_count_unique(dl, p);
        if dirs.last().path == p {
            if parent_present(dl, p) {
                let w = choose|i: int| 0 <= i < dl.len() && (#[trigger] dl[i]).path == p;
                assert(dirs[w].path == dirs[dirs.len() - 1].path);
                assert(false);
            }
            assert(dirs[dirs.len() - 1].path == p);
            assert(parent_present(dirs, p));
        } else {
            if parent_present(dl, p) {
                let w = choose|i: int| 0 <= i < dl.len() && (#[trigger] dl[i]).path == p;
                assert(dirs[w].path == p);
                assert(parent_present(dirs, p));
            }
            if parent_present(dirs, p) {
                let w = choose|i: int| 0 <= i < dirs.len() && (#[trigger] dirs[i]).path == p;
                assert(w < dl.len());
                assert(dl[w].path == p);
            }
        }
    }
}

/// In a well-formed store every file record's parent path matches
/// exactly one directory record's path.
pub proof fn lemma_parent_unique(m: StoreModel, k: int)
    requires
        store_wf(m),
        0 <= k < m.files.len(),
    ensures
        count_dirs_with_path(m.dirs, m.files[k].parent_path) == 1,
{
    assert(parent_present(m.dirs, m.files[k].parent_path));
    lemma_count_unique(m.dirs, m.files[k].parent_path);
}

/// Immediate children reach exactly one level deeper: extending an
/// immediate child of `p` by a further separator segment never yields an
/// immediate child of `p`.
pub proof fn lemma_no_grandchildren(p: Seq<char>, c: Seq<char>, g: Seq<char>)
    requires
        is_immediate_child(p, c),
        g.len() > c.len(),
        g.subrange(0, c.len() as int) == c,
        g[c.len() as int] == '\\',
    ensures
        !is_immediate_child(p, g),
{
    assert(c.len() > p.len());
    if is_immediate_child(p, g) {
        assert(g[c.len() as int] != '\\');
        assert(false);
    }
}

/// Parsing is deterministic: two loads of the same bytes yield the same
/// store model, and with it the same query results.
pub proof fn lemma_parse_deterministic(
    b: Seq<u8>,
    m1: StoreModel,
    m2: StoreModel,
    p: Seq<char>,
    term: Seq<char>,
    limit: int,
)
    requires
        m1 == spec_load(spec_scan(b)),
        m2 == spec_load(spec_scan(b)),
    ensures
        m1 == m2,
        spec_dir_content(m1, p) == spec_dir_content(m2, p),
        spec_search_files(m1, term, limit) == spec_search_files(m2, term, limit),
        spec_top_files(m1, limit) == spec_top_files(m2, limit),
{
}

/// A line that yields no record and keeps the parent, whatever the
/// parent was: blank lines, directory candidates without the `" ["`
/// marker, file candidates without a closing bracket.
pub open spec fn inert_line(l: Seq<u8>) -> bool {
    ||| trimmed(l).len() == 0
    ||| (!is_file_line(l) && last_marker(l) < 0)
    ||| (is_file_line(l) && crate::bytes::first_match(l, |b: u8| b == 93) == l.len())
}

pub proof fn lemma_inert_step(st: Option<Seq<char>>, l: Seq<u8>)
    requires
        inert_line(l),
    ensures
        spec_step(st, l).0 is None,
        spec_step(st, l).1 == st,
{
}

/// A malformed line interleaved anywhere in a report changes nothing:
/// the scan with it inserted equals the scan without it.
pub proof fn lemma_inert_line_ignored(
    l1: Seq<Seq<u8>>,
    l2: Seq<Seq<u8>>,
    g: Seq<u8>,
    st: Option<Seq<char>>,
)
    requires
        inert_line(g),
    ensures
        spec_scan_lines(l1 + seq![g] + l2, st).0 == spec_scan_lines(l1 + l2, st).0,
        spec_scan_lines(l1 + seq![g] + l2, st).1 == spec_scan_lines(l1 + l2, st).1,
{
    let st1 = spec_scan_lines(l1, st).1;
    lemma_scan_lines_concat(l1, seq![g] + l2, st);
    assert(l1 + (seq![g] + l2) =~= l1 + seq![g] + l2);
    lemma_scan_lines_concat(seq![g], l2, st1);
    lemma_scan_single(g, st1);
    lemma_inert_step(st1, g);
    assert(opt_item_seq(spec_step(st1, g).0) =~= Seq::<ItemModel>::empty());
    assert(spec_scan_lines(seq![g] + l2, st1).0 =~= spec_scan_lines(l2, st1).0);
    lemma_scan_lines_concat(l1, l2, st);
    assert(spec_scan_lines(l1 + seq![g] + l2, st).0 =~= spec_scan_lines(l1, st).0
        + spec_scan_lines(l2, st1).0);
}

} // verus!

