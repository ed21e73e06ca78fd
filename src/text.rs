//! Byte-level text search used by the marker scanner and the editors.
use vstd::prelude::*;

verus! {

/// ASCII whitespace: space, tab, line feed, vertical tab, form feed, carriage return.
pub open spec fn is_ws(b: u8) -> bool {
    b == 32u8 || b == 9u8 || b == 10u8 || b == 11u8 || b == 12u8 || b == 13u8
}

/// ASCII lower-casing of one byte.
pub open spec fn lower(b: u8) -> u8 {
    if 65u8 <= b && b <= 90u8 {
        (b + 32) as u8
    } else {
        b
    }
}

/// `p` occurs in `d` at index `i`.
pub open spec fn occurs_at(d: Seq<u8>, i: int, p: Seq<u8>) -> bool {
    0 <= i && i + p.len() <= d.len() && forall|k: int| 0 <= k < p.len() ==> d[i + k] == p[k]
}

/// `p` (written in lower case) occurs in `d` at index `i`, ignoring ASCII case.
pub open spec fn occurs_at_ci(d: Seq<u8>, i: int, p: Seq<u8>) -> bool {
    0 <= i && i + p.len() <= d.len() && forall|k: int| 0 <= k < p.len() ==> lower(d[i + k]) == p[k]
}

/// `i` is the first index at or after `from` where `p` occurs.
pub open spec fn first_from(d: Seq<u8>, from: int, i: int, p: Seq<u8>) -> bool {
    from <= i && occurs_at(d, i, p) && forall|k: int| from <= k < i ==> !#[trigger] occurs_at(d, k, p)
}

/// `p` does not occur anywhere at or after `from`.
pub open spec fn absent_from(d: Seq<u8>, from: int, p: Seq<u8>) -> bool {
    forall|k: int| from <= k ==> !#[trigger] occurs_at(d, k, p)
}

/// `i` is the first index at or after `from` where `p` occurs, ignoring ASCII case.
pub open spec fn first_from_ci(d: Seq<u8>, from: int, i: int, p: Seq<u8>) -> bool {
    from <= i && occurs_at_ci(d, i, p) && forall|k: int| from <= k < i ==> !#[trigger] occurs_at_ci(d, k, p)
}

/// `p` does not occur, ignoring ASCII case, anywhere at or after `from`.
pub open spec fn absent_from_ci(d: Seq<u8>, from: int, p: Seq<u8>) -> bool {
    forall|k: int| from <= k ==> !#[trigger] occurs_at_ci(d, k, p)
}

/// Start of the run of whitespace that ends at `j`, not going below `lo`.
pub open spec fn ws_back(d: Seq<u8>, lo: int, j: int) -> int
    decreases j - lo,
{
    if lo < j && is_ws(d[j - 1]) {
        ws_back(d, lo, j - 1)
    } else {
        j
    }
}

/// End of the run of whitespace that starts at `i`, not going beyond `hi`.
pub open spec fn ws_fwd(d: Seq<u8>, i: int, hi: int) -> int
    decreases hi - i,
{
    if i < hi && is_ws(d[i]) {
        ws_fwd(d, i + 1, hi)
    } else {
        i
    }
}

pub proof fn lemma_ws_back(d: Seq<u8>, lo: int, j: int)
    requires
        0 <= lo <= j <= d.len(),
    ensures
        lo <= ws_back(d, lo, j) <= j,
        forall|k: int| ws_back(d, lo, j) <= k < j ==> is_ws(#[trigger] d[k]),
        ws_back(d, lo, j) == lo || !is_ws(d[ws_back(d, lo, j) - 1]),
    decreases j - lo,
{
    if lo < j && is_ws(d[j - 1]) {
        lemma_ws_back(d, lo, j - 1);
    }
}

pub proof fn lemma_ws_fwd(d: Seq<u8>, i: int, hi: int)
    requires
        0 <= i <= hi <= d.len(),
    ensures
        i <= ws_fwd(d, i, hi) <= hi,
        forall|k: int| i <= k < ws_fwd(d, i, hi) ==> is_ws(#[trigger] d[k]),
        ws_fwd(d, i, hi) == hi || !is_ws(d[ws_fwd(d, i, hi)]),
    decreases hi - i,
{
    if i < hi && is_ws(d[i]) {
        lemma_ws_fwd(d, i + 1, hi);
    }
}

pub fn is_ws_byte(b: u8) -> (r: bool)
    ensures
        r == is_ws(b),
{
    b == 32u8 || b == 9u8 || b == 10u8 || b == 11u8 || b == 12u8 || b == 13u8
}

pub fn lower_byte(b: u8) -> (r: u8)
    ensures
        r == lower(b),
{
    if 65u8 <= b && b <= 90u8 {
        b + 32
    } else {
        b
    }
}

/// Whether `p` occurs in `d` at `i`.
pub fn matches_at(d: &[u8], i: usize, p: &[u8]) -> (r: bool)
    ensures
        r == occurs_at(d@, i as int, p@),
{
    if i > d.len() || p.len() > d.len() - i {
        return false;
    }
    let mut k: usize = 0;
    while k < p.len()
        invariant
            i + p@.len() <= d@.len(),
            d@.len() == d.len(),
            p@.len() == p.len(),
            k <= p@.len(),
            forall|j: int| 0 <= j < k ==> d@[i + j] == p@[j],
        decreases p.len() - k,
    {
        if d[i + k] != p[k] {
            return false;
        }
        k += 1;
    }
    true
}

/// Whether `p`, given in lower case, occurs in `d` at `i`, ignoring ASCII case.
pub fn matches_at_ci(d: &[u8], i: usize, p: &[u8]) -> (r: bool)
    ensures
        r == occurs_at_ci(d@, i as int, p@),
{
    if i > d.len() || p.len() > d.len() - i {
        return false;
    }
    let mut k: usize = 0;
    while k < p.len()
        invariant
            i + p@.len() <= d@.len(),
            d@.len() == d.len(),
            p@.len() == p.len(),
            k <= p@.len(),
            forall|j: int| 0 <= j < k ==> lower(d@[i + j]) == p@[j],
        decreases p.len() - k,
    {
        if lower_byte(d[i + k]) != p[k] {
            return false;
        }
        k += 1;
    }
    true
}

/// First index at or after `from` where `p` occurs.
pub fn find_from(d: &[u8], from: usize, p: &[u8]) -> (r: Option<usize>)
    requires
        p@.len() > 0,
    ensures
        match r {
            Some(i) => first_from(d@, from as int, i as int, p@),
            None => absent_from(d@, from as int, p@),
        },
{
    let mut i: usize = from;
    while i < d.len()
        invariant
            from <= i,
            forall|k: int| from <= k < i ==> !#[trigger] occurs_at(d@, k, p@),
        decreases d.len() - i,
    {
        if matches_at(d, i, p) {
            return Some(i);
        }
        i += 1;
    }
    None
}

/// First index at or after `from` where `p` occurs, ignoring ASCII case.
pub fn find_from_ci(d: &[u8], from: usize, p: &[u8]) -> (r: Option<usize>)
    requires
        p@.len() > 0,
    ensures
        match r {
            Some(i) => first_from_ci(d@, from as int, i as int, p@),
            None => absent_from_ci(d@, from as int, p@),
        },
{
    let mut i: usize = from;
    while i < d.len()
        invariant
            from <= i,
            forall|k: int| from <= k < i ==> !#[trigger] occurs_at_ci(d@, k, p@),
        decreases d.len() - i,
    {
        if matches_at_ci(d, i, p) {
            return Some(i);
        }
        i += 1;
    }
    None
}

/// Start of the whitespace run that ends at `j`, not going below `lo`.
pub fn skip_ws_back(d: &[u8], lo: usize, j: usize) -> (r: usize)
    requires
        lo <= j <= d@.len(),
    ensures
        r == ws_back(d@, lo as int, j as int),
{
    let mut k: usize = j;
    while lo < k && is_ws_byte(d[k - 1])
        invariant
            lo <= k <= j,
            j <= d@.len(),
            ws_back(d@, lo as int, k as int) == ws_back(d@, lo as int, j as int),
        decreases k,
    {
        k -= 1;
    }
    k
}

/// End of the whitespace run that starts at `i`, not going beyond `hi`.
pub fn skip_ws_fwd(d: &[u8], i: usize, hi: usize) -> (r: usize)
    requires
        i <= hi <= d@.len(),
    ensures
        r == ws_fwd(d@, i as int, hi as int),
{
    let mut k: usize = i;
    while k < hi && is_ws_byte(d[k])
        invariant
            i <= k <= hi,
            hi <= d@.len(),
            ws_fwd(d@, k as int, hi as int) == ws_fwd(d@, i as int, hi as int),
        decreases hi - k,
    {
        k += 1;
    }
    k
}

/// Appends `d[i..j]` to `out`.
pub fn push_range(out: &mut Vec<u8>, d: &[u8], i: usize, j: usize)
    requires
        i <= j <= d@.len(),
    ensures
        final(out)@ == old(out)@ + d@.subrange(i as int, j as int),
{
    let ghost start = out@;
    let mut k: usize = i;
    while k < j
        invariant
            i <= k <= j,
            j <= d@.len(),
            out@ == start + d@.subrange(i as int, k as int),
        decreases j - k,
    {
        out.push(d[k]);
        assert(d@.subrange(i as int, k + 1) == d@.subrange(i as int, k as int).push(d@[k as int]));
        k += 1;
    }
}

} // verus!
