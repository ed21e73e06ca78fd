use html_manifest::inline::{embed, embed_encoded, hash_regions, remove_marker};
use html_manifest::model::{HashRegion, HtmlError, Marker, MarkerKind, RegionClass};
use html_manifest::scanner::{find_marker, head_insertion, scan};
use html_manifest::HtmlIO;

const TAG: &str = "<script type=\"application/c2pa-manifest\">";

fn count(hay: &[u8], needle: &[u8]) -> usize {
    hay.windows(needle.len()).filter(|w| *w == needle).count()
}

fn position(hay: &[u8], needle: &[u8]) -> usize {
    hay.windows(needle.len()).position(|w| w == needle).unwrap()
}

#[test]
fn embed_before_body_close_and_scan_back() {
    let doc = b"<html><head></head><body></body></html>";
    let out = embed(doc, b"AB");
    let expected = format!("<html><head></head><body>{TAG}QUI=</script></body></html>");
    assert_eq!(out, expected.as_bytes());
    let (payload, marker) = scan(&out).unwrap();
    assert_eq!(payload.unwrap(), b"AB".to_vec());
    let at = position(&out, b"QUI=");
    assert_eq!(marker, Some(Marker { kind: MarkerKind::InlineTag, offset: at, length: 4 }));
}

#[test]
fn embed_appends_after_trimmed_end() {
    let doc = b"<p>hello</p>  \n\t";
    let out = embed(doc, b"payload bytes");
    let expected = format!("<p>hello</p>{TAG}cGF5bG9hZCBieXRlcw==</script>");
    assert_eq!(out, expected.as_bytes());
    let (payload, _) = scan(&out).unwrap();
    assert_eq!(payload.unwrap(), b"payload bytes".to_vec());
}

#[test]
fn embed_drops_whitespace_before_body_close() {
    let doc = b"<body>\n  <p>x</p>\n  </BODY>";
    let out = embed(doc, b"xyz");
    let expected = format!("<body>\n  <p>x</p>{TAG}eHl6</script></BODY>");
    assert_eq!(out, expected.as_bytes());
}

#[test]
fn embed_replaces_existing_marker_with_its_whitespace() {
    let doc = b"<body>\n<script type='application/c2pa-manifest'>QUI=</script>\n</body>";
    let out = embed(doc, b"xyz");
    let expected = format!("<body>{TAG}eHl6</script></body>");
    assert_eq!(out, expected.as_bytes());
}

#[test]
fn round_trip_on_several_documents() {
    let docs: Vec<&[u8]> = vec![
        b"",
        b"<html><head><title>t</title></head><body><p>a</p></body></html>",
        b"plain text",
        b"<body>\n<script type=\"application/c2pa-manifest\">QUI=</script>\n</body>",
    ];
    let payloads: Vec<&[u8]> = vec![b"A", b"AB", b"ABC", &[0u8, 255, 10, 60, 62]];
    for d in &docs {
        for p in &payloads {
            let out = embed(d, p);
            let (got, marker) = scan(&out).unwrap();
            assert_eq!(got.unwrap(), p.to_vec());
            assert_eq!(marker.unwrap().kind, MarkerKind::InlineTag);
        }
    }
}

#[test]
fn re_embed_keeps_one_marker_with_the_new_payload() {
    let doc = b"<html><head></head><body><p>hi</p>\n</body></html>";
    let once = embed(doc, b"first payload");
    let twice = embed(&once, b"second");
    assert_eq!(count(&twice, b"application/c2pa-manifest"), 1);
    let (got, _) = scan(&twice).unwrap();
    assert_eq!(got.unwrap(), b"second".to_vec());
    assert_eq!(twice, embed(doc, b"second"));
}

#[test]
fn remove_then_scan_finds_nothing() {
    let doc = b"<html><head></head><body><p>hi</p></body></html>";
    let out = embed(doc, b"AB");
    let cleaned = remove_marker(&out);
    assert_eq!(cleaned, b"<html><head></head><body><p>hi</p></body></html>".to_vec());
    let (got, marker) = scan(&cleaned).unwrap();
    assert!(got.is_none());
    assert_eq!(marker, Some(Marker { kind: MarkerKind::InsertionPoint, offset: 12, length: 0 }));
}

#[test]
fn remove_takes_surrounding_whitespace() {
    let doc = b"<body>\n<script type=\"application/c2pa-manifest\">QUI=</script>\n</body>";
    assert_eq!(remove_marker(doc), b"<body></body>".to_vec());
}

#[test]
fn remove_without_marker_is_a_no_op() {
    let doc = b"<html><body>text</body></html>";
    assert_eq!(remove_marker(doc), doc.to_vec());
}

#[test]
fn malformed_body_is_an_error() {
    let doc = b"<script type=\"application/c2pa-manifest\">!!not base64!!</script>";
    assert_eq!(scan(doc), Err(HtmlError::MalformedPayload));
    assert_eq!(HtmlIO::new("html").read_cai(doc), Err(HtmlError::MalformedPayload));
}

#[test]
fn blank_body_counts_as_no_payload() {
    let doc = b"<head lang=\"en\"><script type=\"application/c2pa-manifest\">  </script>";
    let (got, marker) = scan(doc).unwrap();
    assert!(got.is_none());
    assert_eq!(marker, Some(Marker { kind: MarkerKind::InsertionPoint, offset: 16, length: 0 }));
    assert_eq!(HtmlIO::new("html").read_cai(doc), Err(HtmlError::NotFound));
}

#[test]
fn attribute_keyword_ignores_case_and_body_is_trimmed() {
    let doc = b"<script async TYPE='application/c2pa-manifest' id=m>\n QUI= \n</script>";
    let (got, marker) = scan(doc).unwrap();
    assert_eq!(got.unwrap(), b"AB".to_vec());
    let at = position(doc, b"QUI=");
    assert_eq!(marker, Some(Marker { kind: MarkerKind::InlineTag, offset: at, length: 4 }));
}

#[test]
fn other_scripts_are_not_markers() {
    let doc = b"<script src=\"a.js\"></script><p>x</p>";
    assert_eq!(find_marker(doc), None);
    assert_eq!(HtmlIO::new("html").read_cai(doc), Err(HtmlError::NotFound));
}

#[test]
fn head_insertion_point_is_after_head_tag() {
    assert_eq!(
        head_insertion(b"<html><HEAD class=\"x\"><title>"),
        Some(Marker { kind: MarkerKind::InsertionPoint, offset: 22, length: 0 })
    );
    assert_eq!(head_insertion(b"<html><body>"), None);
    assert_eq!(scan(b"no structure").unwrap(), (None, None));
}

#[test]
fn hash_regions_of_embedded_document() {
    let doc = embed(b"<html><body></body></html>", b"AB");
    let regions = hash_regions(&doc).unwrap();
    let at = position(&doc, b"QUI=");
    assert_eq!(
        regions,
        vec![
            HashRegion { offset: 0, length: at, class: RegionClass::Included },
            HashRegion { offset: at, length: 4, class: RegionClass::Excluded },
            HashRegion { offset: at + 4, length: doc.len() - at - 4, class: RegionClass::Included },
        ]
    );
}

#[test]
fn hash_regions_use_a_placeholder_when_no_payload() {
    let doc = b"<html><body></body></html>";
    let regions = hash_regions(doc).unwrap();
    let padded = embed_encoded(doc, b"cGxhY2Vob2xkZXIgbWFuaWZlc3Q=");
    assert_eq!(padded, embed(doc, b"placeholder manifest"));
    assert_eq!(
        regions,
        vec![
            HashRegion { offset: 0, length: 53, class: RegionClass::Included },
            HashRegion { offset: 53, length: 28, class: RegionClass::Excluded },
            HashRegion { offset: 81, length: padded.len() - 81, class: RegionClass::Included },
        ]
    );
    let total: usize = regions.iter().map(|r| r.length).sum();
    assert_eq!(total, padded.len());
}

#[test]
fn hash_regions_report_malformed_payload() {
    let doc = b"<script type=\"application/c2pa-manifest\">%%%</script>";
    assert_eq!(hash_regions(doc), Err(HtmlError::MalformedPayload));
}

#[test]
fn handler_reads_writes_and_removes() {
    let io = HtmlIO::new("html");
    let doc = b"<html><head></head><body></body></html>";
    assert_eq!(io.read_cai(doc), Err(HtmlError::NotFound));
    assert_eq!(io.read_xmp(doc), None);
    let written = io.write_cai(doc, b"store");
    assert_eq!(io.read_cai(&written), Ok(b"store".to_vec()));
    let locations = io.get_object_locations(&written).unwrap();
    assert_eq!(locations.len(), 3);
    assert_eq!(locations[1].class, RegionClass::Excluded);
    let removed = io.remove_cai_store(&written);
    assert_eq!(removed, doc.to_vec());
    assert_eq!(io.read_cai(&removed), Err(HtmlError::NotFound));
}

#[test]
fn closed_manifest_script_without_end_tag_swallows_the_new_element() {
    let doc = b"<script type='application/c2pa-manifest'>abc</body>";
    let out = embed(doc, b"AB");
    let expected = format!("<script type='application/c2pa-manifest'>abc{TAG}QUI=</script></body>");
    assert_eq!(out, expected.as_bytes());
    assert_eq!(scan(&out), Err(HtmlError::MalformedPayload));
}

#[test]
fn unclosed_script_tag_still_reads_back() {
    let doc = b"<script </body>";
    let out = embed(doc, b"AB");
    let (got, marker) = scan(&out).unwrap();
    assert_eq!(got.unwrap(), b"AB".to_vec());
    assert_eq!(marker.unwrap().offset, position(&out, b"QUI="));
}
