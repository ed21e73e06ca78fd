use html_manifest::model::{HashRegion, HtmlError, RegionClass};
use html_manifest::sidecar::{
    file_name_start, find_reference, insert_reference, referenced_path, sidecar_hash_regions,
    sidecar_path,
};

fn count(hay: &[u8], needle: &[u8]) -> usize {
    hay.windows(needle.len()).filter(|w| *w == needle).count()
}

#[test]
fn sidecar_path_appends_suffix() {
    assert_eq!(sidecar_path(b"page.html"), b"page.html.c2pa".to_vec());
    assert_eq!(sidecar_path(b"site/a/index.htm"), b"site/a/index.htm.c2pa".to_vec());
}

#[test]
fn file_name_starts_after_last_slash() {
    assert_eq!(file_name_start(b"site/a/page.html"), 7);
    assert_eq!(file_name_start(b"page.html"), 0);
}

#[test]
fn write_reference_into_head_once() {
    let doc = b"<html><head><title>t</title></head><body></body></html>";
    let name = sidecar_path(b"page.html");
    let once = insert_reference(doc, &name);
    let expected = b"<html><head>\n<link rel=\"c2pa-manifest\" href=\"page.html.c2pa\"/>\n<title>t</title></head><body></body></html>";
    assert_eq!(once, expected.to_vec());
    assert_eq!(find_reference(&once), Some(name.clone()));
    let twice = insert_reference(&once, &name);
    assert_eq!(twice, once);
    assert_eq!(count(&twice, b"rel=\"c2pa-manifest\""), 1);
}

#[test]
fn write_reference_replaces_old_line() {
    let doc = b"<head>\n  <link rel=\"c2pa-manifest\" href=\"old.c2pa\">\n</head>";
    let out = insert_reference(doc, b"new.c2pa");
    assert_eq!(
        out,
        b"<head>\n<link rel=\"c2pa-manifest\" href=\"new.c2pa\"/>\n</head>".to_vec()
    );
    assert_eq!(find_reference(&out), Some(b"new.c2pa".to_vec()));
}

#[test]
fn write_reference_without_head_prepends() {
    let out = insert_reference(b"<p>x</p>", b"p.html.c2pa");
    assert_eq!(
        out,
        b"<link rel=\"c2pa-manifest\" href=\"p.html.c2pa\"/>\n<p>x</p>".to_vec()
    );
}

#[test]
fn reference_lookup_failures() {
    assert_eq!(find_reference(b"<head></head>"), None);
    assert_eq!(find_reference(b"<link rel=\"c2pa-manifest\">\nhref=\"x\""), None);
    assert_eq!(referenced_path(b"a/page.html", b"<head></head>"), Err(HtmlError::NotFound));
}

#[test]
fn referenced_path_is_relative_to_document() {
    let doc = b"<head><link rel=\"c2pa-manifest\" href=\"page.html.c2pa\"/></head>";
    assert_eq!(referenced_path(b"site/page.html", doc), Ok(b"site/page.html.c2pa".to_vec()));
}

#[test]
fn sidecar_regions_cover_whole_file() {
    assert_eq!(
        sidecar_hash_regions(1234),
        vec![HashRegion { offset: 0, length: 1234, class: RegionClass::Excluded }]
    );
}
