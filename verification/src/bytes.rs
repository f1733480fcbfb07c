//! Byte-level helpers shared by the size parser and the line scanner:
//! ASCII character classes, first/last occurrence searches, and
//! whitespace trimming, each with a spec-level definition and an
//! executable counterpart proved against it.

use vstd::prelude::*;

verus! {

/// ASCII whitespace, as `u8::is_ascii_whitespace` has it:
/// space, tab, line feed, form feed, carriage return.
pub open spec fn is_ascii_ws(b: u8) -> bool {
    b == 32 || b == 9 || b == 10 || b == 12 || b == 13
}

pub open spec fn is_ascii_digit(b: u8) -> bool {
    48 <= b <= 57
}

pub open spec fn is_ascii_alpha(b: u8) -> bool {
    (65 <= b <= 90) || (97 <= b <= 122)
}

/// Lower-cases a single ASCII byte; other bytes pass through.
pub open spec fn to_lower(b: u8) -> u8 {
    if 65 <= b <= 90 {
        (b + 32) as u8
    } else {
        b
    }
}

pub fn is_ws_byte(b: u8) -> (r: bool)
    ensures
        r == is_ascii_ws(b),
{
    b == 32 || b == 9 || b == 10 || b == 12 || b == 13
}

pub fn is_digit_byte(b: u8) -> (r: bool)
    ensures
        r == is_ascii_digit(b),
{
    48 <= b && b <= 57
}

pub fn is_alpha_byte(b: u8) -> (r: bool)
    ensures
        r == is_ascii_alpha(b),
{
    (65 <= b && b <= 90) || (97 <= b && b <= 122)
}

pub fn lower_byte(b: u8) -> (r: u8)
    ensures
        r == to_lower(b),
{
    if 65 <= b && b <= 90 {
        b + 32
    } else {
        b
    }
}

/// Index of the first byte of `s` satisfying `pred`, or `s.len()` if none does.
pub open spec fn first_match(s: Seq<u8>, pred: spec_fn(u8) -> bool) -> int
    decreases s.len(),
{
    if s.len() == 0 {
        0
    } else if pred(s[0]) {
        0
    } else {
        1 + first_match(s.drop_first(), pred)
    }
}

pub proof fn lemma_first_match(s: Seq<u8>, pred: spec_fn(u8) -> bool)
    ensures
        0 <= first_match(s, pred) <= s.len(),
        forall|j: int| 0 <= j < first_match(s, pred) ==> !pred(s[j]),
        first_match(s, pred) < s.len() ==> pred(s[first_match(s, pred)]),
    decreases s.len(),
{
    if s.len() > 0 && !pred(s[0]) {
        lemma_first_match(s.drop_first(), pred);
        let f = first_match(s, pred);
        assert forall|j: int| 0 <= j < f implies !pred(s[j]) by {
            if j > 0 {
                assert(s.drop_first()[j - 1] == s[j]);
            }
        }
        if f < s.len() {
            assert(s.drop_first()[f - 1] == s[f]);
        }
    }
}

/// The characterization above pins `first_match` down: any index with the
/// same properties is it.
pub proof fn lemma_first_match_is(s: Seq<u8>, pred: spec_fn(u8) -> bool, i: int)
    requires
        0 <= i <= s.len(),
        forall|j: int| 0 <= j < i ==> !pred(s[j]),
        i < s.len() ==> pred(s[i]),
    ensures
        first_match(s, pred) == i,
{
    lemma_first_match(s, pred);
    let f = first_match(s, pred);
    if f < i {
        assert(pred(s[f]));
        assert(false);
    }
    if i < f {
        assert(!pred(s[i]));
        assert(false);
    }
}

/// One past the last non-whitespace byte of `s`; 0 if `s` is all whitespace.
pub open spec fn trim_hi(s: Seq<u8>) -> int
    decreases s.len(),
{
    if s.len() == 0 {
        0
    } else if is_ascii_ws(s.last()) {
        trim_hi(s.drop_last())
    } else {
        s.len() as int
    }
}

pub proof fn lemma_trim_hi(s: Seq<u8>)
    ensures
        0 <= trim_hi(s) <= s.len(),
        forall|j: int| trim_hi(s) <= j < s.len() ==> is_ascii_ws(s[j]),
        trim_hi(s) > 0 ==> !is_ascii_ws(s[trim_hi(s) - 1]),
    decreases s.len(),
{
    if s.len() > 0 && is_ascii_ws(s.last()) {
        lemma_trim_hi(s.drop_last());
        assert forall|j: int| trim_hi(s) <= j < s.len() implies is_ascii_ws(s[j]) by {
            if j < s.len() - 1 {
                assert(s.drop_last()[j] == s[j]);
            }
        }
        if trim_hi(s) > 0 {
            assert(s.drop_last()[trim_hi(s) - 1] == s[trim_hi(s) - 1]);
        }
    }
}

pub proof fn lemma_trim_hi_is(s: Seq<u8>, i: int)
    requires
        0 <= i <= s.len(),
        forall|j: int| i <= j < s.len() ==> is_ascii_ws(s[j]),
        i > 0 ==> !is_ascii_ws(s[i - 1]),
    ensures
        trim_hi(s) == i,
{
    lemma_trim_hi(s);
    let t = trim_hi(s);
    if t < i {
        assert(is_ascii_ws(s[i - 1]));
        assert(false);
    }
    if i < t {
        assert(is_ascii_ws(s[t - 1]));
        assert(false);
    }
}

/// Index of the first byte of `s` that is not ASCII whitespace, or `s.len()`.
pub open spec fn trim_lo(s: Seq<u8>) -> int {
    first_match(s, |b: u8| !is_ascii_ws(b))
}

/// `s` with ASCII whitespace removed from both ends.
pub open spec fn trimmed(s: Seq<u8>) -> Seq<u8> {
    if trim_lo(s) < trim_hi(s) {
        s.subrange(trim_lo(s), trim_hi(s))
    } else {
        Seq::empty()
    }
}

/// Trims ASCII whitespace from both ends of a byte slice.
pub fn trim_slice(s: &[u8]) -> (r: &[u8])
    ensures
        r@ == trimmed(s@),
{
    let ghost ws_pred = |b: u8| !is_ascii_ws(b);
    let n = s.len();
    let mut lo: usize = 0;
    while lo < n && is_ws_byte(s[lo])
        invariant
            0 <= lo <= n,
            n == s@.len(),
            forall|j: int| 0 <= j < lo ==> is_ascii_ws(s@[j]),
        decreases n - lo,
    {
        lo += 1;
    }
    proof {
        lemma_first_match_is(s@, ws_pred, lo as int);
    }
    if lo == n {
        proof {
            lemma_trim_hi(s@);
            if trim_hi(s@) > 0 {
                assert(is_ascii_ws(s@[trim_hi(s@) - 1]));
            }
        }
        let r = vstd::slice::slice_subrange(s, 0, 0);
        assert(r@ =~= trimmed(s@));
        return r;
    }
    let mut hi: usize = n;
    while hi > lo && is_ws_byte(s[hi - 1])
        invariant
            lo <= hi <= n,
            n == s@.len(),
            forall|j: int| hi <= j < n ==> is_ascii_ws(s@[j]),
        decreases hi,
    {
        hi -= 1;
    }
    proof {
        if hi == lo {
            assert(!is_ascii_ws(s@[lo as int]));
            assert(false);
        }
        lemma_trim_hi_is(s@, hi as int);
    }
    let r = vstd::slice::slice_subrange(s, lo, hi);
    assert(r@ =~= trimmed(s@));
    r
}

/// Relies on `memchr::memchr`: returns the index of the first occurrence
/// of `needle` in `hay`, or `None` when `needle` does not occur at all.
#[verifier::external_body]
pub(crate) fn find_byte(needle: u8, hay: &[u8]) -> (r: Option<usize>)
    ensures
        match r {
            Some(i) => i < hay@.len() && hay@[i as int] == needle && forall|j: int|
                0 <= j < i ==> hay@[j] != needle,
            None => forall|j: int| 0 <= j < hay@.len() ==> hay@[j] != needle,
        },
{
    memchr::memchr(needle, hay)
}

} // verus!
