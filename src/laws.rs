//! Laws of the two strategies: embedding then scanning gives the payload back,
//! re-embedding keeps one element, removal leaves none, and a written reference reads back.
use vstd::prelude::*;
use crate::codec::{b64_decode, is_b64_byte};
use crate::model::MarkerKind;
use crate::inline::{
    removed, body_close, embedded, has_body_close, marker_extent, marker_text, tag_open_text, the_body_close,
};
use crate::scanner::{
    head_point, lemma_head_point_bound,
    attr_within, content_type, type_kw, first_marker, gt, has_marker, lemma_first_from_unique, lemma_first_marker_unique,
    marker_at, opens_marker, payload_span, scan_spec, script_close, script_open, the_marker, type_attr_at,
    typed_tag,
};
use crate::sidecar::{
    dquote, has_rel, href_attr, line_end, line_start, reference_href, reference_text, rel_attr, the_rel,
    with_reference,
};
use crate::text::{first_from, first_from_ci, is_ws, lower, lemma_ws_back, lemma_ws_fwd, occurs_at, ws_back, ws_fwd};

verus! {

/// No `<script` tag of the document that carries the manifest content type is closed.
pub open spec fn no_typed_tag(d: Seq<u8>) -> bool {
    forall|s: int, g: int| !#[trigger] typed_tag(d, s, g)
}

/// Documents on which embedding is read back by scanning: those that already hold a
/// manifest element, and those with no closed manifest-typed `<script>` tag at all.
pub open spec fn embeddable(d: Seq<u8>) -> bool {
    has_marker(d) || no_typed_tag(d)
}

/// Text that base64 encoding can produce, and that is not empty.
pub open spec fn b64_text(enc: Seq<u8>) -> bool {
    enc.len() > 0 && forall|k: int| 0 <= k < enc.len() ==> is_b64_byte(#[trigger] enc[k])
}

/// Byte `i` of the opening tag `<script type="application/c2pa-manifest">`.
#[verifier::opaque]
pub open spec fn tag_byte(i: int) -> u8 {
    let b: Seq<u8> = seq![
        60u8, 115u8, 99u8, 114u8, 105u8, 112u8, 116u8, 32u8, 116u8, 121u8, 112u8, 101u8, 61u8,
        34u8, 97u8, 112u8, 112u8, 108u8, 105u8, 99u8, 97u8, 116u8, 105u8, 111u8, 110u8, 47u8,
        99u8, 50u8, 112u8, 97u8, 45u8, 109u8, 97u8, 110u8, 105u8, 102u8, 101u8, 115u8, 116u8,
        34u8, 62u8,
    ];
    b[i]
}

proof fn lemma_tag_text()
    ensures
        tag_open_text().len() == 41,
        forall|j: int| 0 <= j < 41 ==> #[trigger] tag_open_text()[j] == tag_byte(j),
        forall|j: int| 0 <= j < 40 ==> tag_byte(j) != 62u8,
        tag_byte(40) == 62u8,
        forall|j: int| 1 <= j < 41 ==> tag_byte(j) != 60u8,
        forall|j: int| 0 <= j < 7 ==> tag_byte(j) == #[trigger] script_open()[j],
        forall|j: int| 0 <= j < 5 ==> lower(tag_byte(8 + j)) == #[trigger] type_kw()[j],
        forall|j: int| 0 <= j < 25 ==> tag_byte(14 + j) == #[trigger] content_type()[j],
        tag_byte(13) == 34u8,
        tag_byte(39) == 34u8,
{
    let b: Seq<u8> = seq![
        60u8, 115u8, 99u8, 114u8, 105u8, 112u8, 116u8, 32u8, 116u8, 121u8, 112u8, 101u8, 61u8,
        34u8, 97u8, 112u8, 112u8, 108u8, 105u8, 99u8, 97u8, 116u8, 105u8, 111u8, 110u8, 47u8,
        99u8, 50u8, 112u8, 97u8, 45u8, 109u8, 97u8, 110u8, 105u8, 102u8, 101u8, 115u8, 116u8,
        34u8, 62u8,
    ];
    reveal(tag_byte);
    assert(tag_open_text() =~= b);
}

/// Where there is an occurrence, there is a first one.
pub proof fn lemma_first_exists(d: Seq<u8>, from: int, i: int, p: Seq<u8>)
    requires
        from <= i,
        occurs_at(d, i, p),
    ensures
        exists|j: int| #[trigger] first_from(d, from, j, p),
    decreases i - from,
{
    if exists|k: int| from <= k < i && occurs_at(d, k, p) {
        let k = choose|k: int| from <= k < i && occurs_at(d, k, p);
        lemma_first_exists(d, from, k, p);
    } else {
        assert(first_from(d, from, i, p));
    }
}

/// Where a manifest element opens, there is a first one.
pub proof fn lemma_has_marker(d: Seq<u8>, s: int)
    requires
        opens_marker(d, s),
    ensures
        has_marker(d),
    decreases s,
{
    if exists|k: int| 0 <= k < s && opens_marker(d, k) {
        let k = choose|k: int| 0 <= k < s && opens_marker(d, k);
        lemma_has_marker(d, k);
    } else {
        let (g, e) = choose|g: int, e: int| marker_at(d, s, g, e);
        assert(first_marker(d, s, g, e));
    }
}

/// A closed tag that lies in a common prefix of two texts is the same tag in both.
pub proof fn lemma_typed_tag_prefix(o: Seq<u8>, d: Seq<u8>, x: int, s: int, g: int)
    requires
        x <= o.len(),
        x <= d.len(),
        forall|i: int| 0 <= i < x ==> o[i] == d[i],
        g < x,
        typed_tag(o, s, g),
    ensures
        typed_tag(d, s, g),
{
    assert(occurs_at(d, s, script_open()));
    assert(occurs_at(d, g, gt()));
    assert forall|k: int| s + 7 <= k < g implies !#[trigger] occurs_at(d, k, gt()) by {
        assert(!occurs_at(o, k, gt()));
    }
    let t = choose|t: int| s + 7 <= t && t + 32 <= g && #[trigger] type_attr_at(o, t);
    assert(type_attr_at(d, t));
    assert(attr_within(d, s + 7, g));
}

/// The canonical manifest element for `enc` stands in `o` at `x`.
pub open spec fn spliced(o: Seq<u8>, x: int, enc: Seq<u8>) -> bool {
    &&& 0 <= x
    &&& x + 50 + enc.len() <= o.len()
    &&& forall|i: int| 0 <= i < 41 ==> #[trigger] o[x + i] == tag_byte(i)
    &&& forall|i: int| 0 <= i < enc.len() ==> #[trigger] o[x + 41 + i] == enc[i]
    &&& forall|i: int| 0 <= i < 9 ==> #[trigger] o[x + 41 + enc.len() + i] == script_close()[i]
}

/// The bytes of a text that holds a manifest element after `a`.
proof fn lemma_splice_bytes(o: Seq<u8>, a: Seq<u8>, enc: Seq<u8>, c: Seq<u8>)
    requires
        o == a + marker_text(enc) + c,
    ensures
        spliced(o, a.len() as int, enc),
        forall|i: int| 0 <= i < a.len() ==> #[trigger] o[i] == a[i],
        o.len() == a.len() + 50 + enc.len() + c.len(),
        forall|i: int| 0 <= i < c.len() ==> #[trigger] o[a.len() + 50 + enc.len() + i] == c[i],
{
    lemma_tag_text();
    let x = a.len() as int;
    let m = marker_text(enc);
    assert forall|i: int| 0 <= i < 41 implies #[trigger] o[x + i] == tag_byte(i) by {
        assert(o[x + i] == m[i]);
        assert(m[i] == tag_open_text()[i]);
    }
    assert forall|i: int| 0 <= i < enc.len() implies #[trigger] o[x + 41 + i] == enc[i] by {
        assert(o[x + 41 + i] == m[41 + i]);
    }
    assert forall|i: int| 0 <= i < 9 implies #[trigger] o[x + 41 + enc.len() + i] == script_close()[i] by {
        assert(o[x + 41 + enc.len() + i] == m[41 + enc.len() + i]);
    }
}

/// The spliced element is a manifest element of the text.
proof fn lemma_splice_marker(o: Seq<u8>, x: int, enc: Seq<u8>)
    requires
        spliced(o, x, enc),
        b64_text(enc),
    ensures
        marker_at(o, x, x + 40, x + 41 + enc.len()),
{
    lemma_tag_text();
    let g0 = x + 40;
    let e0 = x + 41 + enc.len();
    assert(occurs_at(o, x, script_open())) by {
        assert forall|i: int| 0 <= i < 7 implies o[x + i] == script_open()[i] by {
            assert(o[x + i] == tag_byte(i));
        }
    }
    assert(occurs_at(o, g0, gt())) by {
        assert(o[x + 40] == tag_byte(40));
    }
    assert forall|k: int| x + 7 <= k < g0 implies !#[trigger] occurs_at(o, k, gt()) by {
        assert(o[x + (k - x)] == tag_byte(k - x));
        if occurs_at(o, k, gt()) {
            assert(o[k + 0] == gt()[0]);
        }
    }
    assert(type_attr_at(o, x + 8)) by {
        assert forall|i: int| 0 <= i < 5 implies lower(o[x + 8 + i]) == #[trigger] type_kw()[i] by {
            assert(o[x + (8 + i)] == tag_byte(8 + i));
        }
        assert forall|i: int| 0 <= i < 25 implies o[x + 14 + i] == #[trigger] content_type()[i] by {
            assert(o[x + (14 + i)] == tag_byte(14 + i));
        }
        assert(o[x + 13] == tag_byte(13));
        assert(o[x + 39] == tag_byte(39));
    }
    assert(attr_within(o, x + 7, g0));
    assert(occurs_at(o, e0, script_close()));
    assert forall|k: int| g0 + 1 <= k < e0 implies !#[trigger] occurs_at(o, k, script_close()) by {
        assert(o[x + 41 + (k - x - 41)] == enc[k - x - 41]);
        assert(is_b64_byte(enc[k - x - 41]));
    }
}

/// An element of the text that opens before the spliced one, after a prefix in which no
/// manifest-typed tag closes, shares the spliced element's tag end and body end.
proof fn lemma_splice_earlier(o: Seq<u8>, x: int, enc: Seq<u8>, s: int, g: int, e: int)
    requires
        spliced(o, x, enc),
        b64_text(enc),
        forall|s2: int, g2: int| g2 < x ==> !#[trigger] typed_tag(o, s2, g2),
        s < x,
        marker_at(o, s, g, e),
    ensures
        g == x + 40,
        e == x + 41 + enc.len(),
{
    lemma_tag_text();
    lemma_splice_marker(o, x, enc);
    let g0 = x + 40;
    let e0 = x + 41 + enc.len();
    assert(typed_tag(o, s, g));
    if s + 7 > x {
        assert(o[x + 0] == tag_byte(0));
        assert(o[s + (x - s)] == script_open()[x - s]);
    }
    assert(g >= x);
    if g < g0 {
        assert(o[x + (g - x)] == tag_byte(g - x));
        assert(o[g + 0] == gt()[0]);
    }
    if g > g0 {
        assert(!occurs_at(o, g0, gt()));
    }
    lemma_first_from_unique(o, g0 + 1, e, e0, script_close());
}

/// A manifest element spliced into a text after a prefix in which no manifest-typed tag
/// closes is where scanning finds the payload text.
pub proof fn lemma_spliced(o: Seq<u8>, a: Seq<u8>, enc: Seq<u8>, c: Seq<u8>)
    requires
        o == a + marker_text(enc) + c,
        b64_text(enc),
        forall|s: int, g: int| g < a.len() ==> !#[trigger] typed_tag(o, s, g),
    ensures
        payload_span(o) == Some(((a.len() + 41) as int, (a.len() + 41 + enc.len()) as int)),
        o.subrange((a.len() + 41) as int, (a.len() + 41 + enc.len()) as int) == enc,
{
    lemma_splice_bytes(o, a, enc, c);
    let x = a.len() as int;
    lemma_found_spliced(o, x, enc);
}

/// Scanning finds the spliced element's payload text.
pub proof fn lemma_found_spliced(o: Seq<u8>, x: int, enc: Seq<u8>)
    requires
        spliced(o, x, enc),
        b64_text(enc),
        forall|s: int, g: int| g < x ==> !#[trigger] typed_tag(o, s, g),
    ensures
        payload_span(o) == Some((x + 41, x + 41 + enc.len())),
        o.subrange(x + 41, x + 41 + enc.len()) == enc,
{
    lemma_splice_marker(o, x, enc);
    let g0 = x + 40;
    let e0 = x + 41 + enc.len();
    assert(opens_marker(o, x));
    lemma_has_marker(o, x);
    let (s1, g1, e1) = the_marker(o);
    assert(first_marker(o, s1, g1, e1));
    if s1 > x {
        assert(!opens_marker(o, x));
    }
    if s1 == x {
        lemma_first_from_unique(o, x + 7, g1, g0, gt());
        lemma_first_from_unique(o, g0 + 1, e1, e0, script_close());
    }
    if s1 < x {
        lemma_splice_earlier(o, x, enc, s1, g1, e1);
    }
    assert(!is_ws(o[g0 + 1])) by {
        assert(o[x + 41 + 0] == enc[0]);
        assert(is_b64_byte(enc[0]));
    }
    assert(ws_fwd(o, g0 + 1, e0) == g0 + 1);
    assert(!is_ws(o[e0 - 1])) by {
        assert(o[x + 41 + (enc.len() - 1)] == enc[enc.len() - 1]);
        assert(is_b64_byte(enc[enc.len() - 1]));
    }
    assert(ws_back(o, g0 + 1, e0) == e0);
    assert forall|i: int| 0 <= i < enc.len() implies #[trigger] o.subrange(x + 41, e0)[i] == enc[i] by {
        assert(o[x + 41 + i] == enc[i]);
    }
    assert(o.subrange(x + 41, e0) =~= enc);
}

/// Embedding base64 text into a document that admits it, then scanning the result,
/// finds exactly that text as the payload.
pub proof fn lemma_embed_then_scan(d: Seq<u8>, enc: Seq<u8>)
    requires
        embeddable(d),
        b64_text(enc),
    ensures
        payload_span(embedded(d, enc)) matches Some((a, b)) && embedded(d, enc).subrange(a, b)
            == enc,
{
    let o = embedded(d, enc);
    let m = marker_text(enc);
    let n = d.len() as int;
    if has_marker(d) {
        let (s1, g1, e1) = the_marker(d);
        assert(first_marker(d, s1, g1, e1));
        let (p, q) = marker_extent(d);
        lemma_ws_back(d, 0, s1);
        lemma_ws_fwd(d, e1 + 9, n);
        let a = d.subrange(0, p);
        let c = d.subrange(q, n);
        lemma_splice_bytes(o, a, enc, c);
        assert forall|s: int, g: int| g < a.len() implies !#[trigger] typed_tag(o, s, g) by {
            if typed_tag(o, s, g) {
                lemma_typed_tag_prefix(o, d, p, s, g);
                assert(occurs_at(d, e1, script_close()));
                lemma_first_exists(d, g + 1, e1, script_close());
                let e2 = choose|e2: int| #[trigger] first_from(d, g + 1, e2, script_close());
                assert(marker_at(d, s, g, e2));
                assert(opens_marker(d, s));
            }
        }
        lemma_spliced(o, a, enc, c);
    } else {
        assert(no_typed_tag(d));
        if has_body_close(d) {
            let b = the_body_close(d);
            assert(first_from_ci(d, 0, b, body_close()));
            lemma_ws_back(d, 0, b);
            let w = ws_back(d, 0, b);
            let a = d.subrange(0, w);
            let c = d.subrange(b, n);
            assert(o =~= a + m + c);
            lemma_splice_bytes(o, a, enc, c);
            assert forall|s: int, g: int| g < a.len() implies !#[trigger] typed_tag(o, s, g) by {
                if typed_tag(o, s, g) {
                    lemma_typed_tag_prefix(o, d, w, s, g);
                }
            }
            lemma_spliced(o, a, enc, c);
        } else {
            lemma_ws_back(d, 0, n);
            let t = ws_back(d, 0, n);
            let a = d.subrange(0, t);
            let c = Seq::<u8>::empty();
            assert(o =~= a + m + c);
            lemma_splice_bytes(o, a, enc, c);
            assert forall|s: int, g: int| g < a.len() implies !#[trigger] typed_tag(o, s, g) by {
                if typed_tag(o, s, g) {
                    lemma_typed_tag_prefix(o, d, t, s, g);
                }
            }
            lemma_spliced(o, a, enc, c);
        }
    }
}

/// Scanning `o` gives back the payload `p` from an inline element whose span holds
/// exactly the text `enc`.
pub open spec fn reads_back(o: Seq<u8>, p: Seq<u8>, enc: Seq<u8>) -> bool {
    scan_spec(o) matches Ok((Some(q), Some(m))) && q == p && m.kind == MarkerKind::InlineTag
        && m.offset + m.length <= o.len() && o.subrange(
        m.offset as int,
        m.offset + m.length,
    ) == enc
}

/// Where the payload span holds base64 text of `p`, scanning reads `p` back from it.
pub proof fn lemma_reads_back(o: Seq<u8>, enc: Seq<u8>, p: Seq<u8>)
    requires
        o.len() <= usize::MAX,
        payload_span(o) matches Some((a, b)) && o.subrange(a, b) == enc,
        b64_decode(enc) == Some(p),
    ensures
        reads_back(o, p, enc),
{
    reveal(scan_spec);
    let (s, g, e) = the_marker(o);
    assert(first_marker(o, s, g, e));
    lemma_ws_fwd(o, g + 1, e);
    lemma_ws_back(o, ws_fwd(o, g + 1, e), e);
}

/// Re-embedding: after embedding twice, scanning finds the text embedded last.
pub proof fn lemma_re_embed_reads_latest(d: Seq<u8>, e1: Seq<u8>, e2: Seq<u8>)
    requires
        embeddable(d),
        b64_text(e1),
        b64_text(e2),
    ensures
        payload_span(embedded(embedded(d, e1), e2)) matches Some((a, b)) && embedded(
            embedded(d, e1),
            e2,
        ).subrange(a, b) == e2,
{
    lemma_embed_then_scan(d, e1);
    assert(has_marker(embedded(d, e1)));
    lemma_embed_then_scan(embedded(d, e1), e2);
}

/// Byte `i` of `<link rel="c2pa-manifest" href="`.
#[verifier::opaque]
pub open spec fn link_byte(i: int) -> u8 {
    let b: Seq<u8> = seq![
        60u8, 108u8, 105u8, 110u8, 107u8, 32u8, 114u8, 101u8, 108u8, 61u8, 34u8, 99u8, 50u8,
        112u8, 97u8, 45u8, 109u8, 97u8, 110u8, 105u8, 102u8, 101u8, 115u8, 116u8, 34u8, 32u8,
        104u8, 114u8, 101u8, 102u8, 61u8, 34u8,
    ];
    b[i]
}

proof fn lemma_link_text(name: Seq<u8>)
    ensures
        reference_text(name).len() == 35 + name.len(),
        forall|j: int| 0 <= j < 32 ==> #[trigger] reference_text(name)[j] == link_byte(j),
        forall|j: int| 0 <= j < name.len() ==> #[trigger] reference_text(name)[32 + j] == name[j],
        reference_text(name)[32 + name.len() as int] == 34u8,
        reference_text(name)[33 + name.len() as int] == 47u8,
        reference_text(name)[34 + name.len() as int] == 62u8,
        forall|j: int| 0 <= j < 6 ==> link_byte(j) != 114u8,
        forall|j: int| 0 <= j < 26 ==> link_byte(j) != 104u8,
        forall|j: int| 0 <= j < 32 ==> link_byte(j) != 10u8,
        forall|j: int| 0 <= j < 19 ==> link_byte(6 + j) == #[trigger] rel_attr()[j],
        forall|j: int| 0 <= j < 6 ==> link_byte(26 + j) == #[trigger] href_attr()[j],
{
    let b: Seq<u8> = seq![
        60u8, 108u8, 105u8, 110u8, 107u8, 32u8, 114u8, 101u8, 108u8, 61u8, 34u8, 99u8, 50u8,
        112u8, 97u8, 45u8, 109u8, 97u8, 110u8, 105u8, 102u8, 101u8, 115u8, 116u8, 34u8, 32u8,
        104u8, 114u8, 101u8, 102u8, 61u8, 34u8,
    ];
    reveal(link_byte);
    let m = reference_text(name);
    assert(seq![60u8, 108u8, 105u8, 110u8, 107u8, 32u8] + rel_attr() + seq![32u8] + href_attr()
        =~= b);
    assert forall|j: int| 0 <= j < 32 implies #[trigger] m[j] == link_byte(j) by {
        assert(m[j] == b[j]);
    }
}

/// A name that can stand as a one-line, double-quoted attribute value.
pub open spec fn plain_name(name: Seq<u8>) -> bool {
    forall|j: int| 0 <= j < name.len() ==> #[trigger] name[j] != 34u8 && name[j] != 10u8
}

/// The reference line for `name` stands in `o` at `x`, alone on its line.
pub open spec fn link_line_at(o: Seq<u8>, x: int, name: Seq<u8>) -> bool {
    &&& 0 <= x
    &&& x + 35 + name.len() <= o.len()
    &&& forall|i: int| 0 <= i < 35 + name.len() ==> #[trigger] o[x + i] == reference_text(name)[i]
    &&& x == 0 || o[x - 1] == 10u8
    &&& x + 35 + name.len() == o.len() || o[x + 35 + name.len()] == 10u8
}

proof fn lemma_line_start_at(d: Seq<u8>, j: int, i: int)
    requires
        0 <= j <= i <= d.len(),
        j == 0 || d[j - 1] == 10u8,
        forall|k: int| j <= k < i ==> #[trigger] d[k] != 10u8,
    ensures
        line_start(d, i) == j,
    decreases i - j,
{
    if i > j {
        lemma_line_start_at(d, j, i - 1);
    }
}

proof fn lemma_line_end_at(d: Seq<u8>, i: int, j: int)
    requires
        0 <= i <= j <= d.len(),
        j == d.len() || d[j] == 10u8,
        forall|k: int| i <= k < j ==> #[trigger] d[k] != 10u8,
    ensures
        line_end(d, i) == j,
    decreases j - i,
{
    if i < j {
        lemma_line_end_at(d, i + 1, j);
    }
}

/// A reference line for a plain name, before which the relation does not occur, is
/// where the `href` lookup finds that name.
pub proof fn lemma_link_found(o: Seq<u8>, x: int, name: Seq<u8>)
    requires
        link_line_at(o, x, name),
        plain_name(name),
        forall|k: int| 0 <= k < x ==> !#[trigger] occurs_at(o, k, rel_attr()),
    ensures
        reference_href(o) == Some(name),
        with_reference(o, name) == o,
{
    lemma_link_text(name);
    let m = reference_text(name);
    let end = x + 35 + name.len();
    assert forall|i: int| 0 <= i < 32 implies #[trigger] o[x + i] == link_byte(i) by {
        assert(o[x + i] == m[i]);
    }
    assert forall|i: int| 0 <= i < name.len() implies #[trigger] o[x + 32 + i] == name[i] by {
        assert(o[x + (32 + i)] == m[32 + i]);
    }
    assert(o[x + 32 + name.len()] == 34u8) by {
        assert(o[x + (32 + name.len())] == m[32 + name.len() as int]);
    }
    assert(o[x + 33 + name.len()] == 47u8) by {
        assert(o[x + (33 + name.len())] == m[33 + name.len() as int]);
    }
    assert(o[x + 34 + name.len()] == 62u8) by {
        assert(o[x + (34 + name.len())] == m[34 + name.len() as int]);
    }
    // the relation
    let i = x + 6;
    assert(occurs_at(o, i, rel_attr())) by {
        assert forall|j: int| 0 <= j < 19 implies o[i + j] == rel_attr()[j] by {
            assert(o[x + (6 + j)] == link_byte(6 + j));
        }
    }
    assert forall|k: int| 0 <= k < i implies !#[trigger] occurs_at(o, k, rel_attr()) by {
        if k >= x && occurs_at(o, k, rel_attr()) {
            assert(o[k + 0] == rel_attr()[0]);
            assert(o[x + (k - x)] == link_byte(k - x));
        }
    }
    assert(first_from(o, 0, i, rel_attr()));
    lemma_first_from_unique(o, 0, i, the_rel(o), rel_attr());
    // its line
    assert forall|k: int| x <= k < end implies #[trigger] o[k] != 10u8 by {
        if k < x + 32 {
            assert(o[x + (k - x)] == link_byte(k - x));
        } else if k < x + 32 + name.len() {
            assert(o[x + 32 + (k - x - 32)] == name[k - x - 32]);
        }
    }
    lemma_line_start_at(o, x, i);
    lemma_line_end_at(o, i, end);
    // the href attribute and its value
    let h = x + 26;
    assert(occurs_at(o, h, href_attr())) by {
        assert forall|j: int| 0 <= j < 6 implies o[h + j] == href_attr()[j] by {
            assert(o[x + (26 + j)] == link_byte(26 + j));
        }
    }
    assert forall|k: int| x <= k < h implies !#[trigger] occurs_at(o, k, href_attr()) by {
        if occurs_at(o, k, href_attr()) {
            assert(o[k + 0] == href_attr()[0]);
            assert(o[x + (k - x)] == link_byte(k - x));
        }
    }
    assert(first_from(o, x, h, href_attr()));
    lemma_first_from_unique(o, x, h, choose|h2: int| #[trigger] first_from(o, x, h2, href_attr()), href_attr());
    let q = x + 32 + name.len();
    assert(occurs_at(o, q, dquote()));
    assert forall|k: int| h + 6 <= k < q implies !#[trigger] occurs_at(o, k, dquote()) by {
        if occurs_at(o, k, dquote()) {
            assert(o[k + 0] == dquote()[0]);
            assert(o[x + 32 + (k - x - 32)] == name[k - x - 32]);
        }
    }
    assert(first_from(o, h + 6, q, dquote()));
    lemma_first_from_unique(o, h + 6, q, choose|q2: int| #[trigger] first_from(o, h + 6, q2, dquote()), dquote());
    assert forall|j: int| 0 <= j < name.len() implies #[trigger] o.subrange(h + 6, q)[j] == name[j] by {
        assert(o[x + 32 + j] == name[j]);
    }
    assert(o.subrange(h + 6, q) =~= name);
    let w = o.subrange(0, x) + m + o.subrange(end, o.len() as int);
    assert forall|j: int| 0 <= j < o.len() implies #[trigger] w[j] == o[j] by {
        if x <= j < end {
            assert(o[x + (j - x)] == m[j - x]);
        }
    }
    assert(w =~= o);
}

proof fn lemma_line_start_props(d: Seq<u8>, i: int)
    requires
        0 <= i <= d.len(),
    ensures
        0 <= line_start(d, i) <= i,
        line_start(d, i) == 0 || d[line_start(d, i) - 1] == 10u8,
    decreases i,
{
    if i > 0 && d[i - 1] != 10u8 {
        lemma_line_start_props(d, i - 1);
    }
}

proof fn lemma_line_end_props(d: Seq<u8>, i: int)
    requires
        0 <= i <= d.len(),
    ensures
        i <= line_end(d, i) <= d.len(),
        line_end(d, i) == d.len() || d[line_end(d, i)] == 10u8,
    decreases d.len() - i,
{
    if 0 <= i < d.len() && d[i] != 10u8 {
        lemma_line_end_props(d, i + 1);
    }
}

/// The relation contains no line feed.
proof fn lemma_rel_one_line()
    ensures
        forall|j: int| 0 <= j < 19 ==> #[trigger] rel_attr()[j] != 10u8,
{
    lemma_link_text(Seq::<u8>::empty());
}

/// An occurrence of the relation in `o` before `x`, where `o` agrees with `d` below `y`,
/// lies in `d` when it ends below `y`, and cannot cover the line feed at `y`.
proof fn lemma_rel_before(o: Seq<u8>, d: Seq<u8>, y: int, k: int)
    requires
        0 <= k < y,
        y <= d.len(),
        y < o.len(),
        o[y] == 10u8,
        forall|i: int| 0 <= i < y ==> #[trigger] o[i] == d[i],
        occurs_at(o, k, rel_attr()),
    ensures
        occurs_at(d, k, rel_attr()),
{
    lemma_rel_one_line();
    if k + 19 > y {
        assert(o[k + (y - k)] == rel_attr()[y - k]);
    }
    assert forall|j: int| 0 <= j < 19 implies d[k + j] == #[trigger] rel_attr()[j] by {
        assert(o[k + j] == rel_attr()[j]);
    }
}

#[verifier::rlimit(60)]
proof fn lemma_ref_replaced(d: Seq<u8>, name: Seq<u8>)
    requires
        plain_name(name),
        has_rel(d),
    ensures
        reference_href(with_reference(d, name)) == Some(name),
        with_reference(with_reference(d, name), name) == with_reference(d, name),
{
    let m = reference_text(name);
    let n = d.len() as int;
    lemma_link_text(name);
    let i = the_rel(d);
    assert(first_from(d, 0, i, rel_attr()));
    let ls = line_start(d, i);
    let le = line_end(d, i);
    lemma_line_start_props(d, i);
    lemma_line_end_props(d, i);
    let o = d.subrange(0, ls) + m + d.subrange(le, n);
    assert(o == with_reference(d, name));
    assert forall|j: int| 0 <= j < m.len() implies #[trigger] o[ls + j] == m[j] by {}
    assert forall|j: int| 0 <= j < ls implies #[trigger] o[j] == d[j] by {}
    if le < n {
        assert(o[ls + m.len()] == d[le]);
    }
    if ls > 0 {
        assert(o[ls - 1] == d[ls - 1]);
    }
    assert(link_line_at(o, ls, name));
    assert forall|k: int| 0 <= k < ls implies !#[trigger] occurs_at(o, k, rel_attr()) by {
        if occurs_at(o, k, rel_attr()) {
            lemma_rel_before(o, d, ls - 1, k);
        }
    }
    lemma_link_found(o, ls, name);
}

proof fn lemma_ref_after_head(d: Seq<u8>, name: Seq<u8>, k: int)
    requires
        plain_name(name),
        !has_rel(d),
        head_point(d) == Some(k),
    ensures
        reference_href(with_reference(d, name)) == Some(name),
        with_reference(with_reference(d, name), name) == with_reference(d, name),
{
    let m = reference_text(name);
    let n = d.len() as int;
    lemma_link_text(name);
    lemma_head_point_bound(d);
    let o = d.subrange(0, k) + seq![10u8] + m + seq![10u8] + d.subrange(k, n);
    assert(o == with_reference(d, name));
    let x = k + 1;
    assert forall|j: int| 0 <= j < m.len() implies #[trigger] o[x + j] == m[j] by {}
    assert forall|j: int| 0 <= j < k implies #[trigger] o[j] == d[j] by {}
    assert(o[k] == 10u8);
    assert(o[x + m.len()] == 10u8);
    assert(link_line_at(o, x, name));
    assert forall|k2: int| 0 <= k2 < x implies !#[trigger] occurs_at(o, k2, rel_attr()) by {
        if occurs_at(o, k2, rel_attr()) {
            if k2 == k {
                lemma_rel_one_line();
                assert(o[k2 + 0] == rel_attr()[0]);
            } else {
                lemma_rel_before(o, d, k, k2);
                lemma_first_exists(d, 0, k2, rel_attr());
            }
        }
    }
    lemma_link_found(o, x, name);
}

proof fn lemma_ref_on_top(d: Seq<u8>, name: Seq<u8>)
    requires
        plain_name(name),
        !has_rel(d),
        head_point(d) is None,
    ensures
        reference_href(with_reference(d, name)) == Some(name),
        with_reference(with_reference(d, name), name) == with_reference(d, name),
{
    let m = reference_text(name);
    lemma_link_text(name);
    let o = m + seq![10u8] + d;
    assert(o == with_reference(d, name));
    assert forall|j: int| 0 <= j < m.len() implies #[trigger] o[0 + j] == m[j] by {}
    assert(o[m.len() as int] == 10u8);
    assert(link_line_at(o, 0, name));
    lemma_link_found(o, 0, name);
}

/// Writing the reference line for a plain name, then looking the reference up, gives
/// that name; writing it a second time changes nothing, so the line is replaced, never
/// duplicated.
pub proof fn lemma_reference_round_trip(d: Seq<u8>, name: Seq<u8>)
    requires
        plain_name(name),
    ensures
        reference_href(with_reference(d, name)) == Some(name),
        with_reference(with_reference(d, name), name) == with_reference(d, name),
{
    if has_rel(d) {
        lemma_ref_replaced(d, name);
    } else {
        match head_point(d) {
            Some(k) => lemma_ref_after_head(d, name, k),
            None => lemma_ref_on_top(d, name),
        }
    }
}

/// The text holds no `<script`.
pub open spec fn no_script(s: Seq<u8>) -> bool {
    forall|k: int| !#[trigger] occurs_at(s, k, script_open())
}

/// The part of a document without a manifest element that comes before an embedded one.
pub open spec fn head_part(d: Seq<u8>) -> Seq<u8> {
    if has_body_close(d) {
        d.subrange(0, ws_back(d, 0, the_body_close(d)))
    } else {
        d.subrange(0, ws_back(d, 0, d.len() as int))
    }
}

/// The part of a document without a manifest element that comes after an embedded one.
pub open spec fn tail_part(d: Seq<u8>) -> Seq<u8> {
    if has_body_close(d) {
        d.subrange(the_body_close(d), d.len() as int)
    } else {
        Seq::<u8>::empty()
    }
}

proof fn lemma_script_bytes()
    ensures
        forall|j: int| 1 <= j < 7 ==> #[trigger] script_open()[j] != 60u8,
        script_open()[0] == 60u8,
        script_open()[1] == 115u8,
{
    lemma_tag_text();
    assert forall|j: int| 1 <= j < 7 implies #[trigger] script_open()[j] != 60u8 by {
        assert(tag_byte(j) == script_open()[j]);
    }
}

proof fn lemma_no_script_sub(d: Seq<u8>, i: int, j: int)
    requires
        no_script(d),
        0 <= i <= j <= d.len(),
    ensures
        no_script(d.subrange(i, j)),
{
    let t = d.subrange(i, j);
    assert forall|k: int| !#[trigger] occurs_at(t, k, script_open()) by {
        if occurs_at(t, k, script_open()) {
            assert forall|m: int| 0 <= m < 7 implies d[i + k + m] == #[trigger] script_open()[m] by {
                assert(t[k + m] == script_open()[m]);
            }
            assert(occurs_at(d, i + k, script_open()));
        }
    }
}

/// Joining two texts without `<script` where the second starts with `<` gives none.
proof fn lemma_no_script_join(a: Seq<u8>, b: Seq<u8>)
    requires
        no_script(a),
        no_script(b),
        b.len() == 0 || b[0] == 60u8,
    ensures
        no_script(a + b),
{
    lemma_script_bytes();
    let o = a + b;
    let x = a.len() as int;
    assert forall|k: int| !#[trigger] occurs_at(o, k, script_open()) by {
        if occurs_at(o, k, script_open()) {
            if k + 7 <= x {
                assert forall|m: int| 0 <= m < 7 implies a[k + m] == #[trigger] script_open()[m] by {
                    assert(o[k + m] == script_open()[m]);
                }
                assert(occurs_at(a, k, script_open()));
            } else if k < x {
                assert(o[k + (x - k)] == script_open()[x - k]);
            } else {
                assert forall|m: int| 0 <= m < 7 implies b[k - x + m] == #[trigger] script_open()[m] by {
                    assert(o[k + m] == script_open()[m]);
                }
                assert(occurs_at(b, k - x, script_open()));
            }
        }
    }
}

/// A document without `<script` splits around the place where a manifest element goes.
proof fn lemma_parts(d: Seq<u8>, enc: Seq<u8>)
    requires
        no_script(d),
    ensures
        !has_marker(d),
        embedded(d, enc) == head_part(d) + marker_text(enc) + tail_part(d),
        no_script(head_part(d)),
        no_script(tail_part(d)),
        tail_part(d).len() == 0 || tail_part(d)[0] == 60u8,
        head_part(d).len() == 0 || !is_ws(head_part(d).last()),
        removed(d) == d,
{
    let n = d.len() as int;
    if has_marker(d) {
        let (s, g, e) = the_marker(d);
        assert(first_marker(d, s, g, e));
        assert(occurs_at(d, s, script_open()));
    }
    if has_body_close(d) {
        let b = the_body_close(d);
        assert(first_from_ci(d, 0, b, body_close()));
        lemma_ws_back(d, 0, b);
        lemma_no_script_sub(d, 0, ws_back(d, 0, b));
        lemma_no_script_sub(d, b, n);
        assert(lower(d[b + 0]) == body_close()[0]);
        assert(embedded(d, enc) =~= head_part(d) + marker_text(enc) + tail_part(d));
    } else {
        lemma_ws_back(d, 0, n);
        lemma_no_script_sub(d, 0, ws_back(d, 0, n));
        assert(no_script(Seq::<u8>::empty()));
        assert(embedded(d, enc) =~= head_part(d) + marker_text(enc) + tail_part(d));
    }
}

/// In `a`, a manifest element, `b`, where neither `a` nor `b` holds `<script` and `b`
/// starts with `<`, the element's own `<script` is the only one.
proof fn lemma_only_script(o: Seq<u8>, a: Seq<u8>, enc: Seq<u8>, b: Seq<u8>)
    requires
        o == a + marker_text(enc) + b,
        b64_text(enc),
        no_script(a),
        no_script(b),
        b.len() == 0 || b[0] == 60u8,
    ensures
        forall|k: int| #[trigger] occurs_at(o, k, script_open()) ==> k == a.len(),
{
    lemma_tag_text();
    lemma_script_bytes();
    lemma_splice_bytes(o, a, enc, b);
    let x = a.len() as int;
    let e0 = x + 41 + enc.len();
    let m = marker_text(enc);
    assert forall|i: int| 0 <= i < b.len() implies #[trigger] o[e0 + 9 + i] == b[i] by {}
    assert forall|k: int| #[trigger] occurs_at(o, k, script_open()) implies k == x by {
        assert(o[k + 0] == script_open()[0]);
        if k + 7 <= x {
            assert forall|j: int| 0 <= j < 7 implies a[k + j] == #[trigger] script_open()[j] by {
                assert(o[k + j] == script_open()[j]);
            }
            assert(occurs_at(a, k, script_open()));
        } else if k < x {
            assert(o[x + 0] == tag_byte(0));
            assert(o[k + (x - k)] == script_open()[x - k]);
        } else if x < k < x + 41 {
            assert(o[x + (k - x)] == tag_byte(k - x));
        } else if x + 41 <= k < e0 {
            assert(o[x + 41 + (k - x - 41)] == enc[k - x - 41]);
            assert(is_b64_byte(enc[k - x - 41]));
        } else if k == e0 {
            assert(o[e0 + 1] == script_close()[1]);
            assert(o[k + 1] == script_open()[1]);
        } else if e0 < k < e0 + 9 {
            assert(o[e0 + (k - e0)] == script_close()[k - e0]);
            let j = k - e0;
            if j == 1 {
            } else if j == 2 {
            } else if j == 3 {
            } else if j == 4 {
            } else if j == 5 {
            } else if j == 6 {
            } else if j == 7 {
            } else {
            }
        } else if k >= e0 + 9 {
            assert forall|j: int| 0 <= j < 7 implies b[k - e0 - 9 + j] == #[trigger] script_open()[j] by {
                assert(o[k + j] == script_open()[j]);
                assert(o[e0 + 9 + (k - e0 - 9 + j)] == b[k - e0 - 9 + j]);
            }
            assert(occurs_at(b, k - e0 - 9, script_open()));
        }
    }
}

proof fn lemma_first_of_parts_core(o: Seq<u8>, x: int, enc: Seq<u8>)
    requires
        spliced(o, x, enc),
        b64_text(enc),
        forall|k: int| #[trigger] occurs_at(o, k, script_open()) ==> k == x,
        x == 0 || !is_ws(o[x - 1]),
        o.len() == x + 50 + enc.len() || o[x + 50 + enc.len()] == 60u8,
    ensures
        has_marker(o),
        marker_extent(o) == (x, x + 50 + enc.len()),
{
    let g0 = x + 40;
    let e0 = x + 41 + enc.len();
    lemma_splice_marker(o, x, enc);
    assert forall|k: int| 0 <= k < x implies !#[trigger] opens_marker(o, k) by {
        if opens_marker(o, k) {
            let (g, e) = choose|g: int, e: int| marker_at(o, k, g, e);
            assert(occurs_at(o, k, script_open()));
        }
    }
    assert(first_marker(o, x, g0, e0));
    lemma_first_marker_unique(o, x, g0, e0);
    assert(ws_back(o, 0, x) == x);
    assert(ws_fwd(o, e0 + 9, o.len() as int) == e0 + 9);
}

/// In `a`, a manifest element, `b` (neither holding `<script`), the element is the first
/// one, and it reaches from the end of `a` to the start of `b`, whitespace included.
#[verifier::rlimit(80)]
proof fn lemma_first_of_parts(o: Seq<u8>, a: Seq<u8>, enc: Seq<u8>, b: Seq<u8>)
    requires
        o == a + marker_text(enc) + b,
        b64_text(enc),
        no_script(a),
        no_script(b),
        b.len() == 0 || b[0] == 60u8,
        a.len() == 0 || !is_ws(a.last()),
    ensures
        has_marker(o),
        marker_extent(o) == (a.len() as int, (a.len() + 50 + enc.len()) as int),
        o.subrange(0, a.len() as int) == a,
        o.subrange((a.len() + 50 + enc.len()) as int, o.len() as int) == b,
{
    lemma_splice_bytes(o, a, enc, b);
    lemma_only_script(o, a, enc, b);
    let x = a.len() as int;
    let e9 = x + 50 + enc.len();
    if x > 0 {
        assert(o[x - 1] == a[x - 1]);
    }
    if b.len() > 0 {
        assert(o[e9 + 0] == b[0]);
    }
    lemma_first_of_parts_core(o, x, enc);
    assert forall|i: int| 0 <= i < x implies #[trigger] o.subrange(0, x)[i] == a[i] by {
        assert(o[i] == a[i]);
    }
    assert(o.subrange(0, x) =~= a);
    assert forall|i: int| 0 <= i < b.len() implies #[trigger] o.subrange(e9, o.len() as int)[i] == b[i] by {
        assert(o[e9 + i] == b[i]);
    }
    assert(o.subrange(e9, o.len() as int) =~= b);
}

/// The text holds exactly one manifest element.
pub open spec fn single_marker(o: Seq<u8>) -> bool {
    exists|x: int| opens_marker(o, x) && forall|s: int| #[trigger] opens_marker(o, s) ==> s == x
}

/// Re-embedding into a document that holds no `<script`: embedding `e1` and then `e2`
/// gives what embedding `e2` alone gives, which holds exactly one manifest element, and
/// scanning it finds `e2`.
pub proof fn lemma_re_embed(d: Seq<u8>, e1: Seq<u8>, e2: Seq<u8>)
    requires
        no_script(d),
        b64_text(e1),
        b64_text(e2),
    ensures
        embedded(embedded(d, e1), e2) == embedded(d, e2),
        single_marker(embedded(d, e2)),
        payload_span(embedded(d, e2)) matches Some((a, b)) && embedded(d, e2).subrange(a, b)
            == e2,
{
    lemma_parts(d, e1);
    lemma_parts(d, e2);
    let a = head_part(d);
    let b = tail_part(d);
    let x = a.len() as int;
    let o1 = embedded(d, e1);
    let o2 = embedded(d, e2);
    lemma_first_of_parts(o1, a, e1, b);
    assert(embedded(o1, e2) =~= o2);
    lemma_splice_bytes(o2, a, e2, b);
    lemma_splice_marker(o2, x, e2);
    lemma_only_script(o2, a, e2, b);
    assert(opens_marker(o2, x));
    assert forall|s: int| #[trigger] opens_marker(o2, s) implies s == x by {
        let (g, e) = choose|g: int, e: int| marker_at(o2, s, g, e);
        assert(occurs_at(o2, s, script_open()));
    }
    assert(single_marker(o2));
    assert forall|s: int, g: int| g < a.len() implies !#[trigger] typed_tag(o2, s, g) by {
        if typed_tag(o2, s, g) {
            assert(occurs_at(o2, s, script_open()));
        }
    }
    lemma_spliced(o2, a, e2, b);
}

/// Removal after embedding into a document that holds no `<script`: the result holds no
/// manifest element, and scanning it finds no payload.
pub proof fn lemma_remove_after_embed(d: Seq<u8>, enc: Seq<u8>)
    requires
        no_script(d),
        b64_text(enc),
    ensures
        !has_marker(removed(embedded(d, enc))),
        scan_spec(removed(embedded(d, enc))) matches Ok((None, _)),
{
    lemma_parts(d, enc);
    let a = head_part(d);
    let b = tail_part(d);
    let o = embedded(d, enc);
    lemma_first_of_parts(o, a, enc, b);
    let r = removed(o);
    assert(r =~= a + b);
    lemma_no_script_join(a, b);
    lemma_parts(r, enc);
    reveal(scan_spec);
}

} // verus!
