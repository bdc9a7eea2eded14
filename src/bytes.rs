//! Scanning helpers over raw bytes, each with the spec function it computes.
use vstd::prelude::*;

verus! {

/// ASCII whitespace as a request line separates its tokens.
pub open spec fn is_ws(b: u8) -> bool {
    b == 32 || b == 9 || b == 10 || b == 11 || b == 12 || b == 13
}

/// Index of the first `b` at or after `i`, or the length when there is none.
pub open spec fn find_from(s: Seq<u8>, b: u8, i: int) -> int
    decreases s.len() - i,
{
    if i < 0 || i >= s.len() {
        s.len() as int
    } else if s[i] == b {
        i
    } else {
        find_from(s, b, i + 1)
    }
}

/// Index of the first non-whitespace byte at or after `i`, or the length.
pub open spec fn skip_ws(s: Seq<u8>, i: int) -> int
    decreases s.len() - i,
{
    if i < 0 || i >= s.len() {
        s.len() as int
    } else if !is_ws(s[i]) {
        i
    } else {
        skip_ws(s, i + 1)
    }
}

/// Index of the first whitespace byte at or after `i`, or the length.
pub open spec fn to_ws(s: Seq<u8>, i: int) -> int
    decreases s.len() - i,
{
    if i < 0 || i >= s.len() {
        s.len() as int
    } else if is_ws(s[i]) {
        i
    } else {
        to_ws(s, i + 1)
    }
}

/// Index just past the last non-whitespace byte before `j`, or 0.
pub open spec fn back_ws(s: Seq<u8>, j: int) -> int
    decreases j,
{
    if j <= 0 || j > s.len() {
        0
    } else if !is_ws(s[j - 1]) {
        j
    } else {
        back_ws(s, j - 1)
    }
}

/// `s` without whitespace at either end.
pub open spec fn trim(s: Seq<u8>) -> Seq<u8> {
    let t = s.subrange(skip_ws(s, 0), s.len() as int);
    t.subrange(0, back_ws(t, t.len() as int))
}

/// ASCII lower case of one byte.
pub open spec fn lower(b: u8) -> u8 {
    if 65 <= b <= 90 {
        (b + 32) as u8
    } else {
        b
    }
}

/// How many times `b` occurs in `s`.
pub open spec fn count(s: Seq<u8>, b: u8) -> nat
    decreases s.len(),
{
    if s.len() == 0 {
        0
    } else {
        count(s.drop_last(), b) + if s.last() == b {
            1nat
        } else {
            0nat
        }
    }
}

pub proof fn lemma_find_bounds(s: Seq<u8>, b: u8, i: int)
    requires
        0 <= i,
    ensures
        i <= find_from(s, b, i) || find_from(s, b, i) == s.len(),
        find_from(s, b, i) <= s.len(),
        find_from(s, b, i) < s.len() ==> s[find_from(s, b, i)] == b,
        forall|k: int| i <= k < find_from(s, b, i) ==> #[trigger] s[k] != b,
    decreases s.len() - i,
{
    if i < s.len() && s[i] != b {
        lemma_find_bounds(s, b, i + 1);
    }
}

pub proof fn lemma_skip_bounds(s: Seq<u8>, i: int)
    requires
        0 <= i,
    ensures
        i <= skip_ws(s, i) || skip_ws(s, i) == s.len(),
        skip_ws(s, i) <= s.len(),
    decreases s.len() - i,
{
    if i < s.len() && is_ws(s[i]) {
        lemma_skip_bounds(s, i + 1);
    }
}

pub proof fn lemma_to_ws_bounds(s: Seq<u8>, i: int)
    requires
        0 <= i,
    ensures
        i <= to_ws(s, i) || to_ws(s, i) == s.len(),
        to_ws(s, i) <= s.len(),
        forall|k: int| i <= k < to_ws(s, i) ==> !is_ws(#[trigger] s[k]),
    decreases s.len() - i,
{
    if i < s.len() && !is_ws(s[i]) {
        lemma_to_ws_bounds(s, i + 1);
    }
}

pub proof fn lemma_back_bounds(s: Seq<u8>, j: int)
    requires
        0 <= j <= s.len(),
    ensures
        0 <= back_ws(s, j) <= j,
    decreases j,
{
    if j > 0 && is_ws(s[j - 1]) {
        lemma_back_bounds(s, j - 1);
    }
}

pub proof fn lemma_count_add(a: Seq<u8>, c: Seq<u8>, b: u8)
    ensures
        count(a + c, b) == count(a, b) + count(c, b),
    decreases c.len(),
{
    if c.len() > 0 {
        lemma_count_add(a, c.drop_last(), b);
        assert((a + c).drop_last() =~= a + c.drop_last());
    } else {
        assert(a + c =~= a);
    }
}

/// No byte of `s` is `b`.
pub open spec fn lacks(s: Seq<u8>, b: u8) -> bool {
    forall|k: int| 0 <= k < s.len() ==> #[trigger] s[k] != b
}

pub proof fn lemma_lacks_count(s: Seq<u8>, b: u8)
    requires
        lacks(s, b),
    ensures
        count(s, b) == 0,
    decreases s.len(),
{
    if s.len() > 0 {
        assert(lacks(s.drop_last(), b)) by {
            assert forall|k: int| 0 <= k < s.drop_last().len() implies #[trigger] s.drop_last()[k]
                != b by {
                assert(s.drop_last()[k] == s[k]);
            }
        }
        lemma_lacks_count(s.drop_last(), b);
    }
}

pub proof fn lemma_find_skip(s: Seq<u8>, b: u8, i: int, j: int)
    requires
        0 <= i <= j <= s.len(),
        forall|k: int| i <= k < j ==> #[trigger] s[k] != b,
    ensures
        find_from(s, b, i) == find_from(s, b, j),
    decreases j - i,
{
    if i < j {
        lemma_find_skip(s, b, i + 1, j);
    }
}

pub proof fn lemma_skip_ws_skip(s: Seq<u8>, i: int, j: int)
    requires
        0 <= i <= j <= s.len(),
        forall|k: int| i <= k < j ==> is_ws(#[trigger] s[k]),
    ensures
        skip_ws(s, i) == skip_ws(s, j),
    decreases j - i,
{
    if i < j {
        lemma_skip_ws_skip(s, i + 1, j);
    }
}

pub proof fn lemma_to_ws_skip(s: Seq<u8>, i: int, j: int)
    requires
        0 <= i <= j <= s.len(),
        forall|k: int| i <= k < j ==> !is_ws(#[trigger] s[k]),
    ensures
        to_ws(s, i) == to_ws(s, j),
    decreases j - i,
{
    if i < j {
        lemma_to_ws_skip(s, i + 1, j);
    }
}

/// Index of the first `b` in `s` at or after `i`, or `s.len()`.
pub fn find_byte(s: &[u8], b: u8, i: usize) -> (r: usize)
    requires
        i <= s@.len(),
    ensures
        r as int == find_from(s@, b, i as int),
{
    let mut k: usize = i;
    while k < s.len()
        invariant
            i <= k <= s@.len(),
            find_from(s@, b, i as int) == find_from(s@, b, k as int),
        decreases s@.len() - k,
    {
        if s[k] == b {
            return k;
        }
        k = k + 1;
    }
    k
}

/// Index of the first non-whitespace byte at or after `i`, or `s.len()`.
pub fn skip_spaces(s: &[u8], i: usize) -> (r: usize)
    requires
        i <= s@.len(),
    ensures
        r as int == skip_ws(s@, i as int),
{
    let mut k: usize = i;
    while k < s.len()
        invariant
            i <= k <= s@.len(),
            skip_ws(s@, i as int) == skip_ws(s@, k as int),
        decreases s@.len() - k,
    {
        let c = s[k];
        if !(c == 32 || c == 9 || c == 10 || c == 11 || c == 12 || c == 13) {
            return k;
        }
        k = k + 1;
    }
    k
}

/// Index of the first whitespace byte at or after `i`, or `s.len()`.
pub fn token_end(s: &[u8], i: usize) -> (r: usize)
    requires
        i <= s@.len(),
    ensures
        r as int == to_ws(s@, i as int),
{
    let mut k: usize = i;
    while k < s.len()
        invariant
            i <= k <= s@.len(),
            to_ws(s@, i as int) == to_ws(s@, k as int),
        decreases s@.len() - k,
    {
        let c = s[k];
        if c == 32 || c == 9 || c == 10 || c == 11 || c == 12 || c == 13 {
            return k;
        }
        k = k + 1;
    }
    k
}

/// Index just past the last non-whitespace byte of `s`, or 0.
pub fn trimmed_end(s: &[u8]) -> (r: usize)
    ensures
        r as int == back_ws(s@, s@.len() as int),
{
    let mut k: usize = s.len();
    while k > 0
        invariant
            k <= s@.len(),
            back_ws(s@, s@.len() as int) == back_ws(s@, k as int),
        decreases k,
    {
        let c = s[k - 1];
        if !(c == 32 || c == 9 || c == 10 || c == 11 || c == 12 || c == 13) {
            return k;
        }
        k = k - 1;
    }
    k
}

/// A copy of `s[from..to]`.
pub fn copy_range(s: &[u8], from: usize, to: usize) -> (r: Vec<u8>)
    requires
        from <= to <= s@.len(),
    ensures
        r@ == s@.subrange(from as int, to as int),
{
    let mut r: Vec<u8> = Vec::new();
    let mut k: usize = from;
    while k < to
        invariant
            from <= k <= to <= s@.len(),
            r@ == s@.subrange(from as int, k as int),
        decreases to - k,
    {
        r.push(s[k]);
        k = k + 1;
    }
    r
}

/// Appends all of `src` to `dst`.
pub fn push_all(dst: &mut Vec<u8>, src: &[u8])
    ensures
        final(dst)@ == old(dst)@ + src@,
{
    let mut k: usize = 0;
    while k < src.len()
        invariant
            k <= src@.len(),
            dst@ == old(dst)@ + src@.subrange(0, k as int),
        decreases src@.len() - k,
    {
        dst.push(src[k]);
        k = k + 1;
    }
    assert(src@.subrange(0, src@.len() as int) =~= src@);
}

/// Whether `s` starts with `p`.
pub fn starts_with(s: &[u8], p: &[u8]) -> (r: bool)
    ensures
        r == (p@.len() <= s@.len() && s@.subrange(0, p@.len() as int) == p@),
{
    if p.len() > s.len() {
        return false;
    }
    let mut k: usize = 0;
    while k < p.len()
        invariant
            p@.len() <= s@.len(),
            k <= p@.len(),
            s@.subrange(0, k as int) == p@.subrange(0, k as int),
        decreases p@.len() - k,
    {
        if s[k] != p[k] {
            assert(s@.subrange(0, p@.len() as int)[k as int] != p@[k as int]);
            return false;
        }
        assert(s@.subrange(0, k as int + 1) =~= s@.subrange(0, k as int).push(s@[k as int]));
        assert(p@.subrange(0, k as int + 1) =~= p@.subrange(0, k as int).push(p@[k as int]));
        k = k + 1;
    }
    assert(p@.subrange(0, k as int) =~= p@);
    true
}

} // verus!
