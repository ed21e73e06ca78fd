//! The inline strategy: the payload's base64 text sits in a manifest element of the document.
use vstd::prelude::*;
use crate::codec::{b64_encode, encode_b64};
use crate::laws::{embeddable, lemma_embed_then_scan, lemma_reads_back, reads_back};
use crate::model::{HashRegion, HtmlError, Marker, RegionClass};
use crate::scanner::{
    content_type, find_marker, has_marker, lemma_first_from_ci_unique, lemma_first_marker_unique,
    lemma_no_marker, lemma_scan_marker_bounds, scan, scan_spec, script_close, script_close_bytes,
    script_open, the_marker, type_kw,
};
use crate::text::{
    find_from_ci, first_from_ci, lemma_ws_back, lemma_ws_fwd, occurs_at_ci, push_range,
    skip_ws_back, skip_ws_fwd, ws_back, ws_fwd,
};

verus! {

/// `<script type="application/c2pa-manifest">`
pub open spec fn tag_open_text() -> Seq<u8> {
    script_open() + seq![32u8] + type_kw() + seq![34u8] + content_type() + seq![34u8, 62u8]
}

/// The canonical manifest element around an encoded payload.
pub open spec fn marker_text(enc: Seq<u8>) -> Seq<u8> {
    tag_open_text() + enc + script_close()
}

/// `</body>`, matched without regard to case.
pub open spec fn body_close() -> Seq<u8> {
    seq![60u8, 47u8, 98u8, 111u8, 100u8, 121u8, 62u8]
}

pub open spec fn has_body_close(d: Seq<u8>) -> bool {
    exists|b: int| first_from_ci(d, 0, b, body_close())
}

pub open spec fn the_body_close(d: Seq<u8>) -> int {
    choose|b: int| first_from_ci(d, 0, b, body_close())
}

/// The first manifest element together with the whitespace on both sides of it.
pub open spec fn marker_extent(d: Seq<u8>) -> (int, int) {
    let (s, g, e) = the_marker(d);
    (ws_back(d, 0, s), ws_fwd(d, e + 9, d.len() as int))
}

/// The document with the manifest element for `enc` in place: replacing the first
/// element, else just before the first `</body>`, whatever its case (dropping the
/// whitespace before it and keeping the tag as written), else after the
/// document with its trailing whitespace trimmed.
pub open spec fn embedded(d: Seq<u8>, enc: Seq<u8>) -> Seq<u8> {
    let m = marker_text(enc);
    if has_marker(d) {
        let (p, q) = marker_extent(d);
        d.subrange(0, p) + m + d.subrange(q, d.len() as int)
    } else if has_body_close(d) {
        let b = the_body_close(d);
        d.subrange(0, ws_back(d, 0, b)) + m + d.subrange(b, d.len() as int)
    } else {
        d.subrange(0, ws_back(d, 0, d.len() as int)) + m
    }
}

/// The document without its first manifest element and the whitespace around it.
pub open spec fn removed(d: Seq<u8>) -> Seq<u8> {
    if has_marker(d) {
        let (p, q) = marker_extent(d);
        d.subrange(0, p) + d.subrange(q, d.len() as int)
    } else {
        d
    }
}

/// `placeholder manifest`
pub open spec fn placeholder() -> Seq<u8> {
    seq![
        112u8, 108u8, 97u8, 99u8, 101u8, 104u8, 111u8, 108u8, 100u8, 101u8, 114u8, 32u8, 109u8,
        97u8, 110u8, 105u8, 102u8, 101u8, 115u8, 116u8,
    ]
}

/// The document that hash regions are computed on: the document itself when it carries
/// a payload, else a copy with a placeholder payload embedded.
pub open spec fn hashed_doc(d: Seq<u8>) -> Seq<u8> {
    match scan_spec(d) {
        Ok((Some(_), _)) => d,
        _ => embedded(d, b64_encode(placeholder())),
    }
}

/// Included before the payload text, excluded over it, included after it.
pub open spec fn three_regions(m: Marker, n: int) -> Seq<HashRegion> {
    seq![
        HashRegion { offset: 0, length: m.offset, class: RegionClass::Included },
        HashRegion { offset: m.offset, length: m.length, class: RegionClass::Excluded },
        HashRegion {
            offset: (m.offset + m.length) as usize,
            length: (n - (m.offset + m.length)) as usize,
            class: RegionClass::Included,
        },
    ]
}

pub open spec fn regions_spec(d: Seq<u8>) -> Result<Seq<HashRegion>, HtmlError> {
    match scan_spec(d) {
        Err(e) => Err(e),
        Ok(_) => match scan_spec(hashed_doc(d)) {
            Err(e) => Err(e),
            Ok((Some(_), Some(m))) => Ok(three_regions(m, hashed_doc(d).len() as int)),
            Ok(_) => Err(HtmlError::NotFound),
        },
    }
}

pub open spec fn covers(r: HashRegion, x: int) -> bool {
    r.offset <= x < r.offset + r.length
}

/// How many regions of `rs` hold byte `x`.
pub open spec fn cover_count(rs: Seq<HashRegion>, x: int) -> int
    decreases rs.len(),
{
    if rs.len() == 0 {
        0
    } else {
        (if covers(rs.last(), x) {
            1int
        } else {
            0int
        }) + cover_count(rs.drop_last(), x)
    }
}

/// Every byte of `[0, n)` lies in exactly one region, and no region reaches outside it.
pub open spec fn partitions(rs: Seq<HashRegion>, n: int) -> bool {
    forall|x: int| #[trigger]
        cover_count(rs, x) == (if 0 <= x < n {
            1int
        } else {
            0int
        })
}

fn marker_bytes(enc: &[u8]) -> (r: Vec<u8>)
    ensures
        r@ == marker_text(enc@),
{
    let mut out: Vec<u8> = vec![
        60u8, 115u8, 99u8, 114u8, 105u8, 112u8, 116u8, 32u8, 116u8, 121u8, 112u8, 101u8, 61u8,
        34u8, 97u8, 112u8, 112u8, 108u8, 105u8, 99u8, 97u8, 116u8, 105u8, 111u8, 110u8, 47u8,
        99u8, 50u8, 112u8, 97u8, 45u8, 109u8, 97u8, 110u8, 105u8, 102u8, 101u8, 115u8, 116u8,
        34u8, 62u8,
    ];
    assert(out@ =~= tag_open_text());
    push_range(&mut out, enc, 0, enc.len());
    let close = script_close_bytes();
    push_range(&mut out, close.as_slice(), 0, close.len());
    assert(enc@.subrange(0, enc@.len() as int) =~= enc@);
    assert(close@.subrange(0, close@.len() as int) =~= close@);
    out
}

fn body_close_bytes() -> (r: Vec<u8>)
    ensures
        r@ == body_close(),
{
    let v: Vec<u8> = vec![60u8, 47u8, 98u8, 111u8, 100u8, 121u8, 62u8];
    assert(v@ =~= body_close());
    v
}

/// Puts the manifest element for the already encoded payload `enc` into the document.
pub fn embed_encoded(d: &[u8], enc: &[u8]) -> (r: Vec<u8>)
    ensures
        r@ == embedded(d@, enc@),
{
    let n: usize = d.len();
    let m = marker_bytes(enc);
    let mut out: Vec<u8> = Vec::new();
    match find_marker(d) {
        Some((s, g, e)) => {
            proof {
                lemma_first_marker_unique(d@, s as int, g as int, e as int);
            }
            let p = skip_ws_back(d, 0, s);
            let q = skip_ws_fwd(d, e + 9, n);
            proof {
                lemma_ws_back(d@, 0, s as int);
                lemma_ws_fwd(d@, e + 9, n as int);
            }
            push_range(&mut out, d, 0, p);
            push_range(&mut out, m.as_slice(), 0, m.len());
            push_range(&mut out, d, q, n);
            assert(m@.subrange(0, m@.len() as int) =~= m@);
            assert(out@ =~= embedded(d@, enc@));
        },
        None => {
            proof {
                lemma_no_marker(d@);
            }
            let bc = body_close_bytes();
            match find_from_ci(d, 0, bc.as_slice()) {
                Some(b) => {
                    proof {
                        lemma_first_from_ci_unique(d@, 0, b as int, the_body_close(d@), body_close());
                    }
                    let w = skip_ws_back(d, 0, b);
                    proof {
                        lemma_ws_back(d@, 0, b as int);
                    }
                    push_range(&mut out, d, 0, w);
                    push_range(&mut out, m.as_slice(), 0, m.len());
                    push_range(&mut out, d, b, n);
                    assert(m@.subrange(0, m@.len() as int) =~= m@);
                    assert(out@ =~= embedded(d@, enc@));
                },
                None => {
                    proof {
                        if has_body_close(d@) {
                            assert(occurs_at_ci(d@, the_body_close(d@), body_close()));
                        }
                    }
                    let t = skip_ws_back(d, 0, n);
                    proof {
                        lemma_ws_back(d@, 0, n as int);
                    }
                    push_range(&mut out, d, 0, t);
                    push_range(&mut out, m.as_slice(), 0, m.len());
                    assert(m@.subrange(0, m@.len() as int) =~= m@);
                    assert(out@ =~= embedded(d@, enc@));
                },
            }
        },
    }
    out
}

/// Removes the first manifest element and the whitespace around it; a document without
/// one comes back unchanged.
pub fn remove_marker(d: &[u8]) -> (r: Vec<u8>)
    ensures
        r@ == removed(d@),
{
    let n: usize = d.len();
    let mut out: Vec<u8> = Vec::new();
    match find_marker(d) {
        Some((s, g, e)) => {
            proof {
                lemma_first_marker_unique(d@, s as int, g as int, e as int);
            }
            let p = skip_ws_back(d, 0, s);
            let q = skip_ws_fwd(d, e + 9, n);
            proof {
                lemma_ws_back(d@, 0, s as int);
                lemma_ws_fwd(d@, e + 9, n as int);
            }
            push_range(&mut out, d, 0, p);
            push_range(&mut out, d, q, n);
            assert(out@ =~= removed(d@));
        },
        None => {
            proof {
                lemma_no_marker(d@);
            }
            push_range(&mut out, d, 0, n);
            assert(out@ =~= removed(d@));
        },
    }
    out
}

pub proof fn lemma_three_regions_partition(m: Marker, n: int)
    requires
        m.offset + m.length <= n <= usize::MAX,
    ensures
        partitions(three_regions(m, n), n),
{
    let rs = three_regions(m, n);
    assert forall|x: int| #[trigger]
        cover_count(rs, x) == (if 0 <= x < n {
            1int
        } else {
            0int
        }) by {
        reveal_with_fuel(cover_count, 4);
        assert(rs.drop_last().drop_last().drop_last() =~= Seq::<HashRegion>::empty());
        assert(rs.drop_last().drop_last().last() == rs[0]);
        assert(rs.drop_last().last() == rs[1]);
        assert(rs.last() == rs[2]);
    }
}

fn placeholder_bytes() -> (r: Vec<u8>)
    ensures
        r@ == placeholder(),
{
    let v: Vec<u8> = vec![
        112u8, 108u8, 97u8, 99u8, 101u8, 104u8, 111u8, 108u8, 100u8, 101u8, 114u8, 32u8, 109u8,
        97u8, 110u8, 105u8, 102u8, 101u8, 115u8, 116u8,
    ];
    assert(v@ =~= placeholder());
    v
}

/// Base64-encodes `payload` and puts its manifest element into the document.
pub fn embed(d: &[u8], payload: &[u8]) -> (r: Vec<u8>)
    requires
        payload@.len() <= usize::MAX / 2,
    ensures
        r@ == embedded(d@, b64_encode(payload@)),
        embeddable(d@) && payload@.len() > 0 ==> reads_back(r@, payload@, b64_encode(payload@)),
{
    let enc = encode_b64(payload);
    let r = embed_encoded(d, enc.as_slice());
    let len: usize = r.len();
    proof {
        if embeddable(d@) && payload@.len() > 0 {
            assert(r@.len() == len);
            assert(enc@.len() > 0);
            lemma_embed_then_scan(d@, enc@);
            lemma_reads_back(r@, enc@, payload@);
        }
    }
    r
}

/// The regions that a content hash of the document must include and exclude: the
/// encoded payload is excluded, everything before and after it included. A document
/// without a payload is measured on a copy that carries a placeholder one.
pub fn hash_regions(d: &[u8]) -> (r: Result<Vec<HashRegion>, HtmlError>)
    ensures
        match r {
            Ok(v) => regions_spec(d@) == Ok::<Seq<HashRegion>, HtmlError>(v@) && partitions(
                v@,
                hashed_doc(d@).len() as int,
            ),
            Err(e) => regions_spec(d@) == Err::<Seq<HashRegion>, HtmlError>(e),
        },
{
    let first = scan(d);
    let has_payload = match first {
        Err(e) => {
            return Err(e);
        },
        Ok((p, _)) => p.is_some(),
    };
    let work: Vec<u8> = if has_payload {
        let mut copy: Vec<u8> = Vec::new();
        push_range(&mut copy, d, 0, d.len());
        assert(copy@ =~= d@);
        copy
    } else {
        let ph = placeholder_bytes();
        let enc = encode_b64(ph.as_slice());
        embed_encoded(d, enc.as_slice())
    };
    assert(work@ == hashed_doc(d@));
    let n: usize = work.len();
    match scan(work.as_slice()) {
        Err(e) => Err(e),
        Ok((Some(_), Some(m))) => {
            proof {
                lemma_scan_marker_bounds(work@);
            }
            let end: usize = m.offset + m.length;
            let rest: usize = n - end;
            let regions: Vec<HashRegion> = vec![
                HashRegion { offset: 0, length: m.offset, class: RegionClass::Included },
                HashRegion { offset: m.offset, length: m.length, class: RegionClass::Excluded },
                HashRegion { offset: end, length: rest, class: RegionClass::Included },
            ];
            assert(regions@ =~= three_regions(m, n as int));
            proof {
                lemma_three_regions_partition(m, n as int);
            }
            Ok(regions)
        },
        Ok(_) => Err(HtmlError::NotFound),
    }
}

} // verus!
