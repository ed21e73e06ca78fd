//! The sidecar strategy: the payload lives in a companion file, and the document carries a
//! `<link rel="c2pa-manifest" href="...">` line that points at it.
use vstd::prelude::*;
use crate::laws::{lemma_reference_round_trip, plain_name};
use crate::model::{HashRegion, HtmlError, RegionClass};
use crate::scanner::{head_insertion, head_marker, head_point, lemma_first_from_unique};
use crate::text::{find_from, first_from, occurs_at, push_range};

verus! {

/// `.c2pa`, appended to the document's own file name.
pub open spec fn suffix() -> Seq<u8> {
    seq![46u8, 99u8, 50u8, 112u8, 97u8]
}

/// `rel="c2pa-manifest"`
pub open spec fn rel_attr() -> Seq<u8> {
    seq![
        114u8, 101u8, 108u8, 61u8, 34u8, 99u8, 50u8, 112u8, 97u8, 45u8, 109u8, 97u8, 110u8,
        105u8, 102u8, 101u8, 115u8, 116u8, 34u8,
    ]
}

/// `href="`
pub open spec fn href_attr() -> Seq<u8> {
    seq![104u8, 114u8, 101u8, 102u8, 61u8, 34u8]
}

pub open spec fn dquote() -> Seq<u8> {
    seq![34u8]
}

/// `<link rel="c2pa-manifest" href="NAME"/>`
pub open spec fn reference_text(name: Seq<u8>) -> Seq<u8> {
    seq![60u8, 108u8, 105u8, 110u8, 107u8, 32u8] + rel_attr() + seq![32u8] + href_attr() + name
        + seq![34u8, 47u8, 62u8]
}

/// Where the file name of a path starts: just after its last `/`, or at 0.
pub open spec fn name_start(p: Seq<u8>, j: int) -> int
    decreases j,
{
    if j <= 0 {
        0
    } else if p[j - 1] == 47u8 {
        j
    } else {
        name_start(p, j - 1)
    }
}

/// Start of the line that holds index `i`.
pub open spec fn line_start(d: Seq<u8>, i: int) -> int
    decreases i,
{
    if i > 0 && d[i - 1] != 10u8 {
        line_start(d, i - 1)
    } else {
        i
    }
}

/// End of the line that holds index `i`: its line feed, or the end of the document.
pub open spec fn line_end(d: Seq<u8>, i: int) -> int
    decreases d.len() - i,
{
    if 0 <= i < d.len() && d[i] != 10u8 {
        line_end(d, i + 1)
    } else {
        i
    }
}

pub open spec fn has_rel(d: Seq<u8>) -> bool {
    exists|i: int| first_from(d, 0, i, rel_attr())
}

pub open spec fn the_rel(d: Seq<u8>) -> int {
    choose|i: int| first_from(d, 0, i, rel_attr())
}

/// The `href` value on the first line that carries the relation, if that line has one.
pub open spec fn reference_href(d: Seq<u8>) -> Option<Seq<u8>> {
    if has_rel(d) {
        let ls = line_start(d, the_rel(d));
        let le = line_end(d, the_rel(d));
        if exists|h: int| #[trigger] first_from(d, ls, h, href_attr()) {
            let h = choose|h: int| #[trigger] first_from(d, ls, h, href_attr());
            if h + 6 <= le && exists|q: int| #[trigger] first_from(d, h + 6, q, dquote()) {
                let q = choose|q: int| #[trigger] first_from(d, h + 6, q, dquote());
                if q < le {
                    Some(d.subrange(h + 6, q))
                } else {
                    None
                }
            } else {
                None
            }
        } else {
            None
        }
    } else {
        None
    }
}

/// The document with the reference line for `name`: replacing the first line that carries
/// the relation, else on a line of its own after the head tag, else on the first line.
pub open spec fn with_reference(d: Seq<u8>, name: Seq<u8>) -> Seq<u8> {
    let m = reference_text(name);
    if has_rel(d) {
        d.subrange(0, line_start(d, the_rel(d))) + m + d.subrange(
            line_end(d, the_rel(d)),
            d.len() as int,
        )
    } else {
        match head_point(d) {
            Some(k) => d.subrange(0, k) + seq![10u8] + m + seq![10u8] + d.subrange(k, d.len() as int),
            None => m + seq![10u8] + d,
        }
    }
}

proof fn lemma_line_bounds(d: Seq<u8>, i: int)
    requires
        0 <= i <= d.len(),
    ensures
        0 <= line_start(d, i) <= i,
        i <= line_end(d, i) <= d.len(),
    decreases d.len() - i + i,
{
    lemma_line_start(d, i);
    lemma_line_end(d, i);
}

proof fn lemma_line_start(d: Seq<u8>, i: int)
    requires
        0 <= i <= d.len(),
    ensures
        0 <= line_start(d, i) <= i,
    decreases i,
{
    if i > 0 && d[i - 1] != 10u8 {
        lemma_line_start(d, i - 1);
    }
}

proof fn lemma_line_end(d: Seq<u8>, i: int)
    requires
        0 <= i <= d.len(),
    ensures
        i <= line_end(d, i) <= d.len(),
    decreases d.len() - i,
{
    if 0 <= i < d.len() && d[i] != 10u8 {
        lemma_line_end(d, i + 1);
    }
}

/// The companion file's path: the document's path with the suffix appended.
pub fn sidecar_path(doc_path: &[u8]) -> (r: Vec<u8>)
    requires
        doc_path@.len() + 5 <= usize::MAX,
    ensures
        r@ == doc_path@ + suffix(),
{
    let mut out: Vec<u8> = Vec::new();
    push_range(&mut out, doc_path, 0, doc_path.len());
    out.push(46u8);
    out.push(99u8);
    out.push(50u8);
    out.push(112u8);
    out.push(97u8);
    assert(out@ =~= doc_path@ + suffix());
    out
}

/// Index where the file name of `p` starts.
pub fn file_name_start(p: &[u8]) -> (r: usize)
    ensures
        r == name_start(p@, p@.len() as int),
        r <= p@.len(),
{
    let mut j: usize = p.len();
    while j > 0 && p[j - 1] != 47u8
        invariant
            j <= p@.len(),
            name_start(p@, j as int) == name_start(p@, p@.len() as int),
        decreases j,
    {
        j -= 1;
    }
    j
}

fn line_start_of(d: &[u8], i: usize) -> (r: usize)
    requires
        i <= d@.len(),
    ensures
        r == line_start(d@, i as int),
{
    let mut k: usize = i;
    while k > 0 && d[k - 1] != 10u8
        invariant
            k <= i <= d@.len(),
            line_start(d@, k as int) == line_start(d@, i as int),
        decreases k,
    {
        k -= 1;
    }
    k
}

fn line_end_of(d: &[u8], i: usize) -> (r: usize)
    requires
        i <= d@.len(),
    ensures
        r == line_end(d@, i as int),
{
    let mut k: usize = i;
    while k < d.len() && d[k] != 10u8
        invariant
            i <= k <= d@.len(),
            line_end(d@, k as int) == line_end(d@, i as int),
        decreases d@.len() - k,
    {
        k += 1;
    }
    k
}

fn rel_bytes() -> (r: Vec<u8>)
    ensures
        r@ == rel_attr(),
{
    let v: Vec<u8> = vec![
        114u8, 101u8, 108u8, 61u8, 34u8, 99u8, 50u8, 112u8, 97u8, 45u8, 109u8, 97u8, 110u8,
        105u8, 102u8, 101u8, 115u8, 116u8, 34u8,
    ];
    assert(v@ =~= rel_attr());
    v
}

fn find_rel(d: &[u8]) -> (r: Option<usize>)
    ensures
        match r {
            Some(i) => has_rel(d@) && i == the_rel(d@) && i < d@.len(),
            None => !has_rel(d@),
        },
{
    let rel = rel_bytes();
    match find_from(d, 0, rel.as_slice()) {
        Some(i) => {
            proof {
                lemma_first_from_unique(d@, 0, i as int, the_rel(d@), rel_attr());
            }
            Some(i)
        },
        None => {
            proof {
                if has_rel(d@) {
                    assert(occurs_at(d@, the_rel(d@), rel_attr()));
                }
            }
            None
        },
    }
}

/// The `href` of the reference line, if the document has one.
pub fn find_reference(d: &[u8]) -> (r: Option<Vec<u8>>)
    ensures
        match r {
            Some(v) => reference_href(d@) == Some(v@),
            None => reference_href(d@) is None,
        },
{
    let n: usize = d.len();
    let i = match find_rel(d) {
        Some(i) => i,
        None => {
            return None;
        },
    };
    let ls = line_start_of(d, i);
    let le = line_end_of(d, i);
    proof {
        lemma_line_bounds(d@, i as int);
    }
    let href: Vec<u8> = vec![104u8, 114u8, 101u8, 102u8, 61u8, 34u8];
    assert(href@ =~= href_attr());
    let h = match find_from(d, ls, href.as_slice()) {
        Some(h) => h,
        None => {
            proof {
                if exists|h: int| #[trigger] first_from(d@, ls as int, h, href_attr()) {
                    let h = choose|h: int| #[trigger] first_from(d@, ls as int, h, href_attr());
                    assert(occurs_at(d@, h, href_attr()));
                }
            }
            return None;
        },
    };
    proof {
        let h2 = choose|h2: int| #[trigger] first_from(d@, ls as int, h2, href_attr());
        lemma_first_from_unique(d@, ls as int, h as int, h2, href_attr());
    }
    if h + 6 > le {
        return None;
    }
    let dq: Vec<u8> = vec![34u8];
    assert(dq@ =~= dquote());
    let q = match find_from(d, h + 6, dq.as_slice()) {
        Some(q) => q,
        None => {
            proof {
                if exists|q: int| #[trigger] first_from(d@, h + 6, q, dquote()) {
                    let q = choose|q: int| #[trigger] first_from(d@, h + 6, q, dquote());
                    assert(occurs_at(d@, q, dquote()));
                }
            }
            return None;
        },
    };
    proof {
        let q2 = choose|q2: int| #[trigger] first_from(d@, h + 6, q2, dquote());
        lemma_first_from_unique(d@, h + 6, q as int, q2, dquote());
    }
    if q >= le {
        return None;
    }
    let mut out: Vec<u8> = Vec::new();
    push_range(&mut out, d, h + 6, q);
    assert(out@ =~= d@.subrange(h + 6, q as int));
    Some(out)
}

fn reference_bytes(name: &[u8]) -> (r: Vec<u8>)
    ensures
        r@ == reference_text(name@),
{
    let mut out: Vec<u8> = vec![
        60u8, 108u8, 105u8, 110u8, 107u8, 32u8, 114u8, 101u8, 108u8, 61u8, 34u8, 99u8, 50u8,
        112u8, 97u8, 45u8, 109u8, 97u8, 110u8, 105u8, 102u8, 101u8, 115u8, 116u8, 34u8, 32u8,
        104u8, 114u8, 101u8, 102u8, 61u8, 34u8,
    ];
    assert(out@ =~= seq![60u8, 108u8, 105u8, 110u8, 107u8, 32u8] + rel_attr() + seq![32u8]
        + href_attr());
    push_range(&mut out, name, 0, name.len());
    assert(name@.subrange(0, name@.len() as int) =~= name@);
    out.push(34u8);
    out.push(47u8);
    out.push(62u8);
    assert(out@ =~= reference_text(name@));
    out
}

/// Writes the reference line for the companion file `name` into the document.
pub fn insert_reference(d: &[u8], name: &[u8]) -> (r: Vec<u8>)
    ensures
        r@ == with_reference(d@, name@),
        plain_name(name@) ==> reference_href(r@) == Some(name@) && with_reference(r@, name@)
            == r@,
{
    let n: usize = d.len();
    let m = reference_bytes(name);
    let mut out: Vec<u8> = Vec::new();
    assert(m@.subrange(0, m@.len() as int) =~= m@);
    match find_rel(d) {
        Some(i) => {
            let ls = line_start_of(d, i);
            let le = line_end_of(d, i);
            proof {
                lemma_line_bounds(d@, i as int);
            }
            push_range(&mut out, d, 0, ls);
            push_range(&mut out, m.as_slice(), 0, m.len());
            push_range(&mut out, d, le, n);
        },
        None => match head_insertion(d) {
            Some(hm) => {
                let k = hm.offset;
                proof {
                    let hk = head_point(d@)->Some_0;
                    assert(head_marker(d@) == Some(hm));
                    assert(k as int == hk);
                    crate::scanner::lemma_head_point_bound(d@);
                }
                push_range(&mut out, d, 0, k);
                out.push(10u8);
                push_range(&mut out, m.as_slice(), 0, m.len());
                out.push(10u8);
                push_range(&mut out, d, k, n);
            },
            None => {
                push_range(&mut out, m.as_slice(), 0, m.len());
                out.push(10u8);
                push_range(&mut out, d, 0, n);
                assert(d@.subrange(0, n as int) =~= d@);
            },
        },
    }
    assert(out@ =~= with_reference(d@, name@));
    proof {
        if plain_name(name@) {
            lemma_reference_round_trip(d@, name@);
        }
    }
    out
}

/// The hash regions of a companion file of `len` bytes: the whole file, as the manifest.
pub fn sidecar_hash_regions(len: usize) -> (r: Vec<HashRegion>)
    ensures
        r@ == seq![HashRegion { offset: 0, length: len, class: RegionClass::Excluded }],
{
    let v: Vec<HashRegion> = vec![HashRegion { offset: 0, length: len, class: RegionClass::Excluded }];
    assert(v@ =~= seq![HashRegion { offset: 0, length: len, class: RegionClass::Excluded }]);
    v
}

/// The path of the companion file that the document at `doc_path` references: the
/// reference taken relative to the document's directory.
pub fn referenced_path(doc_path: &[u8], d: &[u8]) -> (r: Result<Vec<u8>, HtmlError>)
    ensures
        match r {
            Ok(v) => reference_href(d@) matches Some(h) && v@ == doc_path@.subrange(
                0,
                name_start(doc_path@, doc_path@.len() as int),
            ) + h,
            Err(e) => reference_href(d@) is None && e == HtmlError::NotFound,
        },
{
    match find_reference(d) {
        None => Err(HtmlError::NotFound),
        Some(h) => {
            let k = file_name_start(doc_path);
            let mut out: Vec<u8> = Vec::new();
            push_range(&mut out, doc_path, 0, k);
            push_range(&mut out, h.as_slice(), 0, h.len());
            assert(h@.subrange(0, h@.len() as int) =~= h@);
            Ok(out)
        },
    }
}

} // verus!
