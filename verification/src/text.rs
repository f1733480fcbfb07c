//! Character-level text utilities for the query layer: lossy byte
//! decoding, substring containment, and the immediate-child path test.

use vstd::prelude::*;
use vstd::string::StrSliceExecFns;

verus! {

/// The character sequence that lossy UTF-8 decoding yields for a byte
/// sequence; a function of the bytes alone.
pub uninterp spec fn decoded(bytes: Seq<u8>) -> Seq<char>;

/// Relies on `String::from_utf8_lossy`: decodes UTF-8 bytes, replacing
/// invalid sequences with the replacement character; the result depends
/// on the bytes alone.
#[verifier::external_body]
pub(crate) fn decode_lossy(b: &[u8]) -> (s: String)
    ensures
        s@ == decoded(b@),
{
    String::from_utf8_lossy(b).into_owned()
}

/// `needle` occurs in `hay` as a contiguous run of characters.
pub open spec fn contains_seq(hay: Seq<char>, needle: Seq<char>) -> bool {
    exists|i: int|
        0 <= i <= hay.len() - needle.len() && #[trigger] hay.subrange(i, i + needle.len())
            == needle
}

/// Substring test over characters, the containment rule used by file
/// search.
pub fn str_contains(hay: &str, needle: &str) -> (r: bool)
    ensures
        r == contains_seq(hay@, needle@),
{
    let hl = hay.unicode_len();
    let nl = needle.unicode_len();
    if nl > hl {
        return false;
    }
    if nl == 0 {
        proof {
            assert(hay@.subrange(0, 0 + needle@.len() as int) =~= needle@);
        }
        return true;
    }
    let mut i: usize = 0;
    while i <= hl - nl
        invariant
            1 <= nl <= hl,
            hl == hay@.len(),
            nl == needle@.len(),
            0 <= i <= hl - nl + 1,
            forall|k: int| 0 <= k < i ==> #[trigger] hay@.subrange(k, k + nl) != needle@,
        decreases hl - nl - i + 1,
    {
        let mut j: usize = 0;
        let mut mismatch = false;
        while j < nl && !mismatch
            invariant
                0 <= j <= nl,
                i + nl <= hl,
                hl == hay@.len(),
                nl == needle@.len(),
                !mismatch ==> forall|q: int| 0 <= q < j ==> hay@[i + q] == needle@[q],
                mismatch ==> hay@.subrange(i as int, i + nl) != needle@,
            decreases nl - j + (if mismatch {
                0int
            } else {
                1int
            }),
        {
            let hc = hay.get_char(i + j);
            let nc = needle.get_char(j);
            if hc != nc {
                proof {
                    assert(hay@.subrange(i as int, i + nl)[j as int] == hay@[i + j]);
                }
                mismatch = true;
            } else {
                j += 1;
            }
        }
        if !mismatch {
            proof {
                assert(hay@.subrange(i as int, i + nl) =~= needle@);
            }
            return true;
        }
        i += 1;
    }
    proof {
        assert forall|k: int| 0 <= k <= hay@.len() - needle@.len() implies #[trigger] hay@
            .subrange(k, k + needle@.len()) != needle@ by {
            assert(k < i);
        }
    }
    false
}

/// `cand` names an immediate child of the directory at `parent`: it is
/// `parent`, one path separator, then a remainder free of separators.
pub open spec fn is_immediate_child(parent: Seq<char>, cand: Seq<char>) -> bool {
    &&& cand.len() > parent.len()
    &&& cand.subrange(0, parent.len() as int) == parent
    &&& cand[parent.len() as int] == '\\'
    &&& forall|j: int| parent.len() < j < cand.len() ==> cand[j] != '\\'
}

/// The immediate-child test used by directory-content listing.
pub fn immediate_child_of(parent: &str, cand: &str) -> (r: bool)
    ensures
        r == is_immediate_child(parent@, cand@),
{
    let pl = parent.unicode_len();
    let cl = cand.unicode_len();
    if cl <= pl {
        return false;
    }
    let mut i: usize = 0;
    while i < pl
        invariant
            0 <= i <= pl < cl,
            pl == parent@.len(),
            cl == cand@.len(),
            forall|q: int| 0 <= q < i ==> cand@[q] == parent@[q],
        decreases pl - i,
    {
        let cc = cand.get_char(i);
        let pc = parent.get_char(i);
        if cc != pc {
            proof {
                assert(cand@.subrange(0, pl as int)[i as int] == cand@[i as int]);
            }
            return false;
        }
        i += 1;
    }
    let sep = cand.get_char(pl);
    if sep != '\\' {
        return false;
    }
    let mut j: usize = pl + 1;
    while j < cl
        invariant
            pl < j <= cl,
            pl == parent@.len(),
            cl == cand@.len(),
            forall|q: int| pl < q < j ==> cand@[q] != '\\',
        decreases cl - j,
    {
        let cc = cand.get_char(j);
        if cc == '\\' {
            return false;
        }
        j += 1;
    }
    proof {
        assert(cand@.subrange(0, pl as int) =~= parent@);
    }
    true
}

} // verus!
