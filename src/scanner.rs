//! Locating the inline manifest element, or the point where one would go.
use vstd::prelude::*;
use crate::codec::{b64_decode, decode_b64};
use crate::model::{HtmlError, Marker, MarkerKind};
use crate::text::{
    find_from, find_from_ci, first_from, first_from_ci, lemma_ws_back, lemma_ws_fwd, matches_at, matches_at_ci, occurs_at, occurs_at_ci, skip_ws_back, skip_ws_fwd,
    ws_back, ws_fwd,
};

verus! {

/// `<script`
pub open spec fn script_open() -> Seq<u8> {
    seq![60u8, 115u8, 99u8, 114u8, 105u8, 112u8, 116u8]
}

/// `</script>`
pub open spec fn script_close() -> Seq<u8> {
    seq![60u8, 47u8, 115u8, 99u8, 114u8, 105u8, 112u8, 116u8, 62u8]
}

/// `type=`, matched without regard to case.
pub open spec fn type_kw() -> Seq<u8> {
    seq![116u8, 121u8, 112u8, 101u8, 61u8]
}

/// `application/c2pa-manifest`
pub open spec fn content_type() -> Seq<u8> {
    seq![
        97u8, 112u8, 112u8, 108u8, 105u8, 99u8, 97u8, 116u8, 105u8, 111u8, 110u8, 47u8, 99u8,
        50u8, 112u8, 97u8, 45u8, 109u8, 97u8, 110u8, 105u8, 102u8, 101u8, 115u8, 116u8,
    ]
}

/// `>`
pub open spec fn gt() -> Seq<u8> {
    seq![62u8]
}

/// `<head`, matched without regard to case.
pub open spec fn head_open() -> Seq<u8> {
    seq![60u8, 104u8, 101u8, 97u8, 100u8]
}

pub open spec fn is_quote(b: u8) -> bool {
    b == 34u8 || b == 39u8
}

/// The manifest content-type attribute, `type="application/c2pa-manifest"` with either
/// quote, starts at `t`.
pub open spec fn type_attr_at(d: Seq<u8>, t: int) -> bool {
    occurs_at_ci(d, t, type_kw()) && t + 32 <= d.len() && is_quote(d[t + 5]) && occurs_at(
        d,
        t + 6,
        content_type(),
    ) && is_quote(d[t + 31])
}

/// The attribute stands wholly within `[lo, g)`.
pub open spec fn attr_within(d: Seq<u8>, lo: int, g: int) -> bool {
    exists|t: int| lo <= t && t + 32 <= g && #[trigger] type_attr_at(d, t)
}

/// A `<script` tag opens at `s`, closes with the `>` at `g`, and carries the attribute.
pub open spec fn typed_tag(d: Seq<u8>, s: int, g: int) -> bool {
    occurs_at(d, s, script_open()) && first_from(d, s + 7, g, gt()) && attr_within(d, s + 7, g)
}

/// A manifest element opens at `s`; its body is `[g + 1, e)`, ended by the first `</script>`.
pub open spec fn marker_at(d: Seq<u8>, s: int, g: int, e: int) -> bool {
    typed_tag(d, s, g) && first_from(d, g + 1, e, script_close())
}

pub open spec fn opens_marker(d: Seq<u8>, s: int) -> bool {
    exists|g: int, e: int| #[trigger] marker_at(d, s, g, e)
}

/// The manifest element that opens first in `d`.
pub open spec fn first_marker(d: Seq<u8>, s: int, g: int, e: int) -> bool {
    marker_at(d, s, g, e) && forall|k: int| 0 <= k < s ==> !#[trigger] opens_marker(d, k)
}

pub open spec fn has_marker(d: Seq<u8>) -> bool {
    exists|s: int, g: int, e: int| #[trigger] first_marker(d, s, g, e)
}

pub open spec fn the_marker(d: Seq<u8>) -> (int, int, int) {
    choose|s: int, g: int, e: int| #[trigger] first_marker(d, s, g, e)
}

/// The body of the first manifest element with surrounding whitespace trimmed.
pub open spec fn body_span(d: Seq<u8>) -> (int, int) {
    let (s, g, e) = the_marker(d);
    let a = ws_fwd(d, g + 1, e);
    (a, ws_back(d, a, e))
}

/// Where the encoded payload lies, when the first manifest element has a non-blank body.
pub open spec fn payload_span(d: Seq<u8>) -> Option<(int, int)> {
    if has_marker(d) && body_span(d).0 < body_span(d).1 {
        Some(body_span(d))
    } else {
        None
    }
}

/// Just after the first `<head ...>` tag, if there is one.
pub open spec fn head_point(d: Seq<u8>) -> Option<int> {
    if exists|h: int| first_from_ci(d, 0, h, head_open()) {
        let h = choose|h: int| first_from_ci(d, 0, h, head_open());
        if exists|k: int| #[trigger] first_from(d, h + 5, k, gt()) {
            Some((choose|k: int| #[trigger] first_from(d, h + 5, k, gt())) + 1)
        } else {
            None
        }
    } else {
        None
    }
}

pub open spec fn head_marker(d: Seq<u8>) -> Option<Marker> {
    match head_point(d) {
        Some(k) => Some(Marker { kind: MarkerKind::InsertionPoint, offset: k as usize, length: 0 }),
        None => None,
    }
}

/// What scanning a document yields.
#[verifier::opaque]
pub open spec fn scan_spec(d: Seq<u8>) -> Result<(Option<Seq<u8>>, Option<Marker>), HtmlError> {
    match payload_span(d) {
        Some((a, b)) => match b64_decode(d.subrange(a, b)) {
            Some(p) => Ok(
                (
                    Some(p),
                    Some(
                        Marker {
                            kind: MarkerKind::InlineTag,
                            offset: a as usize,
                            length: (b - a) as usize,
                        },
                    ),
                ),
            ),
            None => Err(HtmlError::MalformedPayload),
        },
        None => Ok((None, head_marker(d))),
    }
}

pub open spec fn scan_view(r: Result<(Option<Vec<u8>>, Option<Marker>), HtmlError>) -> Result<
    (Option<Seq<u8>>, Option<Marker>),
    HtmlError,
> {
    match r {
        Ok((Some(v), m)) => Ok((Some(v@), m)),
        Ok((None, m)) => Ok((None, m)),
        Err(e) => Err(e),
    }
}

pub proof fn lemma_first_from_unique(d: Seq<u8>, from: int, i: int, j: int, p: Seq<u8>)
    requires
        first_from(d, from, i, p),
        first_from(d, from, j, p),
    ensures
        i == j,
{
}

pub proof fn lemma_first_from_ci_unique(d: Seq<u8>, from: int, i: int, j: int, p: Seq<u8>)
    requires
        first_from_ci(d, from, i, p),
        first_from_ci(d, from, j, p),
    ensures
        i == j,
{
}

pub proof fn lemma_first_marker_unique(d: Seq<u8>, s: int, g: int, e: int)
    requires
        first_marker(d, s, g, e),
    ensures
        has_marker(d),
        the_marker(d) == (s, g, e),
{
    let (s2, g2, e2) = the_marker(d);
    assert(first_marker(d, s2, g2, e2));
    if s < s2 {
        assert(opens_marker(d, s));
    }
    if s2 < s {
        assert(opens_marker(d, s2));
    }
    lemma_first_from_unique(d, s + 7, g, g2, gt());
    lemma_first_from_unique(d, g + 1, e, e2, script_close());
}

pub fn script_open_bytes() -> (r: Vec<u8>)
    ensures
        r@ == script_open(),
{
    let v: Vec<u8> = vec![60u8, 115u8, 99u8, 114u8, 105u8, 112u8, 116u8];
    assert(v@ =~= script_open());
    v
}

pub fn script_close_bytes() -> (r: Vec<u8>)
    ensures
        r@ == script_close(),
{
    let v: Vec<u8> = vec![60u8, 47u8, 115u8, 99u8, 114u8, 105u8, 112u8, 116u8, 62u8];
    assert(v@ =~= script_close());
    v
}

pub fn gt_bytes() -> (r: Vec<u8>)
    ensures
        r@ == gt(),
{
    let v: Vec<u8> = vec![62u8];
    assert(v@ =~= gt());
    v
}

fn type_attr_here(d: &[u8], t: usize) -> (r: bool)
    ensures
        r == type_attr_at(d@, t as int),
{
    let kw: Vec<u8> = vec![116u8, 121u8, 112u8, 101u8, 61u8];
    assert(kw@ =~= type_kw());
    let ct: Vec<u8> = vec![
        97u8, 112u8, 112u8, 108u8, 105u8, 99u8, 97u8, 116u8, 105u8, 111u8, 110u8, 47u8, 99u8,
        50u8, 112u8, 97u8, 45u8, 109u8, 97u8, 110u8, 105u8, 102u8, 101u8, 115u8, 116u8,
    ];
    assert(ct@ =~= content_type());
    if t > d.len() || d.len() - t < 32 {
        return false;
    }
    matches_at_ci(d, t, kw.as_slice()) && (d[t + 5] == 34u8 || d[t + 5] == 39u8) && matches_at(
        d,
        t + 6,
        ct.as_slice(),
    ) && (d[t + 31] == 34u8 || d[t + 31] == 39u8)
}

fn attr_in(d: &[u8], lo: usize, g: usize) -> (r: bool)
    requires
        lo <= g <= d@.len(),
    ensures
        r == attr_within(d@, lo as int, g as int),
{
    let mut t: usize = lo;
    while t < g && g - t >= 32
        invariant
            lo <= t <= g,
            g <= d@.len(),
            forall|k: int| lo <= k < t ==> !#[trigger] type_attr_at(d@, k),
        decreases g - t,
    {
        if type_attr_here(d, t) {
            return true;
        }
        t += 1;
    }
    false
}

/// The element that opens with the `<script` at `s`, if it is a manifest element.
fn marker_from(d: &[u8], s: usize) -> (r: Option<(usize, usize)>)
    requires
        occurs_at(d@, s as int, script_open()),
    ensures
        match r {
            Some((g, e)) => marker_at(d@, s as int, g as int, e as int),
            None => !opens_marker(d@, s as int),
        },
{
    let n: usize = d.len();
    let gtb = gt_bytes();
    let close = script_close_bytes();
    let g = match find_from(d, s + 7, gtb.as_slice()) {
        Some(g) => g,
        None => {
            proof {
                assert forall|g2: int, e2: int| !#[trigger] marker_at(d@, s as int, g2, e2) by {
                    if marker_at(d@, s as int, g2, e2) {
                        assert(occurs_at(d@, g2, gt()));
                    }
                }
            }
            return None;
        },
    };
    if !attr_in(d, s + 7, g) {
        proof {
            assert forall|g2: int, e2: int| !#[trigger] marker_at(d@, s as int, g2, e2) by {
                if marker_at(d@, s as int, g2, e2) {
                    lemma_first_from_unique(d@, s + 7, g as int, g2, gt());
                }
            }
        }
        return None;
    }
    match find_from(d, g + 1, close.as_slice()) {
        Some(e) => Some((g, e)),
        None => {
            proof {
                assert forall|g2: int, e2: int| !#[trigger] marker_at(d@, s as int, g2, e2) by {
                    if marker_at(d@, s as int, g2, e2) {
                        lemma_first_from_unique(d@, s + 7, g as int, g2, gt());
                        assert(occurs_at(d@, e2, script_close()));
                    }
                }
            }
            None
        },
    }
}

/// The first manifest element of `d`: where it opens, where its opening tag closes, and
/// where its body ends.
pub fn find_marker(d: &[u8]) -> (r: Option<(usize, usize, usize)>)
    ensures
        match r {
            Some((s, g, e)) => first_marker(d@, s as int, g as int, e as int),
            None => forall|s: int| !#[trigger] opens_marker(d@, s),
        },
{
    let open = script_open_bytes();
    let n: usize = d.len();
    let mut pos: usize = 0;
    loop
        invariant
            pos <= d@.len(),
            n == d@.len(),
            open@ == script_open(),
            forall|k: int| 0 <= k < pos ==> !#[trigger] opens_marker(d@, k),
        decreases d@.len() - pos,
    {
        match find_from(d, pos, open.as_slice()) {
            None => {
                proof {
                    assert forall|k: int| !#[trigger] opens_marker(d@, k) by {
                        if k >= pos && opens_marker(d@, k) {
                            let (g2, e2) = choose|g2: int, e2: int| marker_at(d@, k, g2, e2);
                            assert(occurs_at(d@, k, script_open()));
                        }
                    }
                }
                return None;
            },
            Some(s) => {
                proof {
                    assert forall|k: int| pos <= k < s implies !#[trigger] opens_marker(d@, k) by {
                        if opens_marker(d@, k) {
                            let (g2, e2) = choose|g2: int, e2: int| marker_at(d@, k, g2, e2);
                            assert(occurs_at(d@, k, script_open()));
                        }
                    }
                }
                match marker_from(d, s) {
                    Some((g, e)) => {
                        return Some((s, g, e));
                    },
                    None => {
                        pos = s + 1;
                    },
                }
            },
        }
    }
}

pub proof fn lemma_no_marker(d: Seq<u8>)
    requires
        forall|s: int| !#[trigger] opens_marker(d, s),
    ensures
        !has_marker(d),
{
    if has_marker(d) {
        let (s, g, e) = the_marker(d);
        assert(opens_marker(d, s));
    }
}

/// Just after the first `<head ...>` tag, as an insertion point.
pub fn head_insertion(d: &[u8]) -> (r: Option<Marker>)
    ensures
        r == head_marker(d@),
{
    let n: usize = d.len();
    let head: Vec<u8> = vec![60u8, 104u8, 101u8, 97u8, 100u8];
    assert(head@ =~= head_open());
    let gtb = gt_bytes();
    match find_from_ci(d, 0, head.as_slice()) {
        None => {
            proof {
                if exists|h: int| first_from_ci(d@, 0, h, head_open()) {
                    let h = choose|h: int| first_from_ci(d@, 0, h, head_open());
                    assert(occurs_at_ci(d@, h, head_open()));
                }
            }
            None
        },
        Some(h) => {
            proof {
                let h2 = choose|h2: int| first_from_ci(d@, 0, h2, head_open());
                lemma_first_from_ci_unique(d@, 0, h as int, h2, head_open());
            }
            match find_from(d, h + 5, gtb.as_slice()) {
                None => {
                    proof {
                        if exists|k: int| #[trigger] first_from(d@, h + 5, k, gt()) {
                            let k = choose|k: int| #[trigger] first_from(d@, h + 5, k, gt());
                            assert(occurs_at(d@, k, gt()));
                        }
                    }
                    None
                },
                Some(k) => {
                    proof {
                        let k2 = choose|k2: int| #[trigger] first_from(d@, h + 5, k2, gt());
                        lemma_first_from_unique(d@, h + 5, k as int, k2, gt());
                    }
                    Some(Marker { kind: MarkerKind::InsertionPoint, offset: k + 1, length: 0 })
                },
            }
        },
    }
}

/// Finds the manifest payload of a document: decoded from the first manifest element
/// whose body is not blank, with the span of its encoded text; otherwise no payload,
/// with the insertion point after the head tag when there is one.
pub fn scan(d: &[u8]) -> (r: Result<(Option<Vec<u8>>, Option<Marker>), HtmlError>)
    ensures
        scan_view(r) == scan_spec(d@),
{
    reveal(scan_spec);
    match find_marker(d) {
        Some((s, g, e)) => {
            proof {
                lemma_first_marker_unique(d@, s as int, g as int, e as int);
            }
            let a = skip_ws_fwd(d, g + 1, e);
            proof {
                lemma_ws_fwd(d@, g + 1, e as int);
            }
            let b = skip_ws_back(d, a, e);
            proof {
                lemma_ws_back(d@, a as int, e as int);
            }
            if a < b {
                let mut body: Vec<u8> = Vec::new();
                crate::text::push_range(&mut body, d, a, b);
                assert(body@ =~= d@.subrange(a as int, b as int));
                match decode_b64(body.as_slice()) {
                    Some(p) => Ok(
                        (
                            Some(p),
                            Some(Marker { kind: MarkerKind::InlineTag, offset: a, length: b - a }),
                        ),
                    ),
                    None => Err(HtmlError::MalformedPayload),
                }
            } else {
                Ok((None, head_insertion(d)))
            }
        },
        None => {
            proof {
                lemma_no_marker(d@);
            }
            Ok((None, head_insertion(d)))
        },
    }
}

pub proof fn lemma_head_point_bound(d: Seq<u8>)
    ensures
        head_point(d) matches Some(k) ==> 0 < k <= d.len(),
{
    if exists|h: int| first_from_ci(d, 0, h, head_open()) {
        let h = choose|h: int| first_from_ci(d, 0, h, head_open());
        if exists|k: int| #[trigger] first_from(d, h + 5, k, gt()) {
            let k = choose|k: int| #[trigger] first_from(d, h + 5, k, gt());
            assert(occurs_at(d, k, gt()));
        }
    }
}

/// An inline marker that scanning reports lies within the document.
pub proof fn lemma_scan_marker_bounds(d: Seq<u8>)
    requires
        d.len() <= usize::MAX,
    ensures
        scan_spec(d) matches Ok((Some(_), Some(m))) ==> m.offset + m.length <= d.len()
            && m.kind == MarkerKind::InlineTag && m.length > 0,
{
    reveal(scan_spec);
    if has_marker(d) {
        let (s, g, e) = the_marker(d);
        assert(first_marker(d, s, g, e));
        lemma_ws_fwd(d, g + 1, e);
        lemma_ws_back(d, ws_fwd(d, g + 1, e), e);
    }
}

} // verus!
