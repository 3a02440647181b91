//! Small helpers over byte strings: comparison, search, slicing.

use vstd::prelude::*;

verus! {

/// What Unicode uppercasing yields for the given bytes: a function of
/// the input alone.
pub uninterp spec fn upper_of(b: Seq<u8>) -> Seq<u8>;

/// What Unicode lowercasing yields for the given bytes: a function of
/// the input alone.
pub uninterp spec fn lower_of(b: Seq<u8>) -> Seq<u8>;

/// Relies on `str::to_uppercase`: locale-independent Unicode uppercasing,
/// determined by the input characters alone; bytes that are not valid
/// UTF-8 are first replaced through `String::from_utf8_lossy`, which is
/// itself a pure function of the bytes.
#[verifier::external_body]
pub(crate) fn upper_bytes(b: &[u8]) -> (r: Vec<u8>)
    ensures
        r@ == upper_of(b@),
        b@.len() == 0 ==> r@.len() == 0,
{
    String::from_utf8_lossy(b).to_uppercase().into_bytes()
}

/// Relies on `str::to_lowercase`: locale-independent Unicode lowercasing,
/// determined by the input characters alone; bytes that are not valid
/// UTF-8 are first replaced through `String::from_utf8_lossy`, which is
/// itself a pure function of the bytes.
#[verifier::external_body]
pub(crate) fn lower_bytes(b: &[u8]) -> (r: Vec<u8>)
    ensures
        r@ == lower_of(b@),
        b@.len() == 0 ==> r@.len() == 0,
{
    String::from_utf8_lossy(b).to_lowercase().into_bytes()
}

/// Compares two byte strings for equality.
pub fn bytes_eq(a: &[u8], b: &[u8]) -> (r: bool)
    ensures
        r == (a@ == b@),
{
    if a.len() != b.len() {
        assert(a@ != b@) by {
            assert(a@.len() != b@.len());
        }
        return false;
    }
    let n = a.len();
    let mut i: usize = 0;
    while i < n
        invariant
            n == a@.len() == b@.len(),
            0 <= i <= n,
            forall|j: int| 0 <= j < i ==> a@[j] == b@[j],
        decreases n - i,
    {
        if a[i] != b[i] {
            return false;
        }
        i = i + 1;
    }
    proof {
        assert(a@ =~= b@);
    }
    true
}

/// Index of the first occurrence of `b` in `s` at or after `from`, or
/// the length of `s` when there is none.
pub open spec fn find_byte(s: Seq<u8>, from: int, b: u8) -> int
    decreases s.len() - from,
{
    if !(0 <= from < s.len()) {
        s.len() as int
    } else if s[from] == b {
        from
    } else {
        find_byte(s, from + 1, b)
    }
}

/// What `find_byte` returns: a position between `from` and the length,
/// holding `b` if within bounds, with no occurrence of `b` before it.
pub proof fn lemma_find_byte(s: Seq<u8>, from: int, b: u8)
    requires
        0 <= from <= s.len(),
    ensures
        from <= find_byte(s, from, b) <= s.len(),
        find_byte(s, from, b) < s.len() ==> s[find_byte(s, from, b)] == b,
        forall|j: int| from <= j < find_byte(s, from, b) ==> s[j] != b,
    decreases s.len() - from,
{
    if from < s.len() && s[from] != b {
        lemma_find_byte(s, from + 1, b);
    }
}

/// Scans `s` from `from` for the byte `b`.
pub fn find_byte_from(s: &[u8], from: usize, b: u8) -> (r: usize)
    requires
        from <= s@.len(),
    ensures
        r == find_byte(s@, from as int, b),
{
    let n = s.len();
    let mut i: usize = from;
    while i < n
        invariant
            from <= i <= n,
            n == s@.len(),
            find_byte(s@, from as int, b) == find_byte(s@, i as int, b),
        decreases n - i,
    {
        if s[i] == b {
            return i;
        }
        i = i + 1;
    }
    n
}

/// Copies the byte range `[start, end)` of `s` into a fresh vector.
pub fn copy_range(s: &[u8], start: usize, end: usize) -> (r: Vec<u8>)
    requires
        start <= end <= s@.len(),
    ensures
        r@ == s@.subrange(start as int, end as int),
{
    vstd::slice::slice_to_vec(vstd::slice::slice_subrange(s, start, end))
}

/// True when `s` is the three bytes `a b c`.
pub fn is_kw3(s: &[u8], a: u8, b: u8, c: u8) -> (r: bool)
    ensures
        r == (s@ == seq![a, b, c]),
{
    let hit = s.len() == 3 && s[0] == a && s[1] == b && s[2] == c;
    proof {
        if hit {
            assert(s@ =~= seq![a, b, c]);
        } else {
            assert(s@ != seq![a, b, c]);
        }
    }
    hit
}

/// True when `s` is the four bytes `a b c d`.
pub fn is_kw4(s: &[u8], a: u8, b: u8, c: u8, d: u8) -> (r: bool)
    ensures
        r == (s@ == seq![a, b, c, d]),
{
    let hit = s.len() == 4 && s[0] == a && s[1] == b && s[2] == c && s[3] == d;
    proof {
        if hit {
            assert(s@ =~= seq![a, b, c, d]);
        } else {
            assert(s@ != seq![a, b, c, d]);
        }
    }
    hit
}

/// True when `s` is the five bytes `a b c d e`.
pub fn is_kw5(s: &[u8], a: u8, b: u8, c: u8, d: u8, e: u8) -> (r: bool)
    ensures
        r == (s@ == seq![a, b, c, d, e]),
{
    let hit = s.len() == 5 && s[0] == a && s[1] == b && s[2] == c && s[3] == d && s[4] == e;
    proof {
        if hit {
            assert(s@ =~= seq![a, b, c, d, e]);
        } else {
            assert(s@ != seq![a, b, c, d, e]);
        }
    }
    hit
}

/// True when `s` is the six bytes `a b c d e f`.
pub fn is_kw6(s: &[u8], a: u8, b: u8, c: u8, d: u8, e: u8, f: u8) -> (r: bool)
    ensures
        r == (s@ == seq![a, b, c, d, e, f]),
{
    let hit = s.len() == 6 && s[0] == a && s[1] == b && s[2] == c && s[3] == d && s[4] == e
        && s[5] == f;
    proof {
        if hit {
            assert(s@ =~= seq![a, b, c, d, e, f]);
        } else {
            assert(s@ != seq![a, b, c, d, e, f]);
        }
    }
    hit
}

/// True when `s` is the seven bytes `a b c d e f g`.
pub fn is_kw7(s: &[u8], a: u8, b: u8, c: u8, d: u8, e: u8, f: u8, g: u8) -> (r: bool)
    ensures
        r == (s@ == seq![a, b, c, d, e, f, g]),
{
    let hit = s.len() == 7 && s[0] == a && s[1] == b && s[2] == c && s[3] == d && s[4] == e
        && s[5] == f && s[6] == g;
    proof {
        if hit {
            assert(s@ =~= seq![a, b, c, d, e, f, g]);
        } else {
            assert(s@ != seq![a, b, c, d, e, f, g]);
        }
    }
    hit
}

} // verus!
