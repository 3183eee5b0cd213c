//! Rendering: the end-to-end output, its determinism, the compression
//! round trip, and comment safety of the inlined sources.

use std::io::Read;
use std::io::Write;

use base64::Engine;

use rustcodex::lang::{Data, Template};
use rustcodex::source::SourceFile;
use rustcodex::template::Language;

fn gzip_b64(payload: &[u8]) -> Vec<u8> {
    let mut gz =
        flate2::write::GzEncoder::new(Vec::new(), flate2::Compression::best());
    gz.write_all(payload).unwrap();
    let compressed = gz.finish().unwrap();
    base64::engine::general_purpose::STANDARD.encode(compressed).into_bytes()
}

fn find_sub(hay: &[u8], needle: &[u8]) -> Option<usize> {
    if needle.is_empty() || hay.len() < needle.len() {
        return None;
    }
    (0..=hay.len() - needle.len()).find(|&i| &hay[i..i + needle.len()] == needle)
}

fn render(lang: &Language, sources: &[SourceFile], payload: &[u8]) -> Vec<u8> {
    Template::new(Data::new(payload, sources)).transform(lang).erase()
}

#[test]
fn end_to_end_synthetic_language() {
    let l = Language::new(b"shell", b"#!start\n# __SOURCE__\n__PAYLOAD__#end\n").unwrap();
    assert_eq!(l.preamble().as_slice(), b"#!start\n");
    assert_eq!(l.pre().as_slice(), b"# ");
    assert_eq!(l.post().as_slice(), b"");
    assert_eq!(l.postamble().as_slice(), b"#end\n");
    let out = render(&l, &[], b"hi");
    assert!(out.starts_with(b"#!start\n"));
    assert!(out.ends_with(b"#end\n"));
    let enc = gzip_b64(b"hi");
    assert!(find_sub(&out, &enc).is_some());
    let mut expected = b"#!start\n# Generated by `rustcodex`\n\n".to_vec();
    expected.extend_from_slice(&enc);
    expected.extend_from_slice(b"#end\n");
    assert_eq!(out, expected);
}

#[test]
fn rendering_is_deterministic() {
    let text = b"pre\n-- __SOURCE__ --\nmid\n__PAYLOAD__\npost\n";
    let sources = SourceFile::load(vec![
        SourceFile::new(b"b.rs".to_vec(), b"fn b() {}\n".to_vec()),
        SourceFile::new(b"a.rs".to_vec(), b"fn a() {}\n".to_vec()),
    ]);
    let payload = b"some payload bytes";
    let one = render(&Language::new(b"lua", text).unwrap(), &sources, payload);
    let two = render(&Language::new(b"lua", text).unwrap(), &sources, payload);
    assert_eq!(one, two);
}

fn roundtrip(payload: &[u8]) {
    let l = Language::new(b"shell", b"# __SOURCE__\nBEGIN>__PAYLOAD__<END").unwrap();
    let out = render(&l, &[], payload);
    let start = find_sub(&out, b"BEGIN>").unwrap() + b"BEGIN>".len();
    let end = find_sub(&out, b"<END").unwrap();
    let enc = &out[start..end];
    let compressed = base64::engine::general_purpose::STANDARD.decode(enc).unwrap();
    assert_ne!(enc, payload.to_vec().as_slice());
    let mut back = Vec::new();
    flate2::read::GzDecoder::new(compressed.as_slice()).read_to_end(&mut back).unwrap();
    assert_eq!(back, payload);
}

#[test]
fn compression_round_trips_empty_payload() {
    roundtrip(b"");
}

#[test]
fn compression_round_trips_one_byte() {
    roundtrip(b"x");
}

#[test]
fn compression_round_trips_large_payload() {
    let payload: Vec<u8> = (0..1_500_000u32).map(|i| (i % 251) as u8).collect();
    roundtrip(&payload);
}

#[test]
fn sources_listed_in_collection_order() {
    let l = Language::new(b"lua", b"-- __SOURCE__\n__PAYLOAD__\n").unwrap();
    let sources = SourceFile::load(vec![
        SourceFile::new(b"z.rs".to_vec(), b"zz\n".to_vec()),
        SourceFile::new(b"a.rs".to_vec(), b"aa\n".to_vec()),
    ]);
    let out = render(&l, &sources, b"p");
    let a = find_sub(&out, b"-- SOURCE FILE: a.rs\n").unwrap();
    let z = find_sub(&out, b"-- SOURCE FILE: z.rs\n").unwrap();
    assert!(a < z);
    assert!(find_sub(&out, b"-- Heuristically determined source files:\n").is_some());
}

#[test]
fn inlined_code_stays_commented() {
    // The code holds both marker strings, blank lines, CRLF endings, and no
    // final newline: every rendered line of the listing must still carry
    // the comment delimiters on both sides.
    let l = Language::new(b"c", b"/* __SOURCE__ */\nM>__PAYLOAD__<M").unwrap();
    assert_eq!(l.pre().as_slice(), b"/* ");
    assert_eq!(l.post().as_slice(), b" */");
    let code = b"line one\n__SOURCE__ inside\r\n\n__PAYLOAD__ too\nlast line".to_vec();
    let sources = vec![SourceFile::new(b"tricky.txt".to_vec(), code)];
    let out = render(&l, &sources, b"p");
    let listing_end = find_sub(&out, b"\nM>").unwrap();
    let listing = &out[..listing_end];
    for line in listing.split(|&b| b == b'\n') {
        if line.is_empty() {
            // the cut before the payload line leaves one empty remainder
            continue;
        }
        assert!(line.starts_with(b"/* "), "line not opened: {:?}", line);
        assert!(line.ends_with(b" */"), "line not closed: {:?}", line);
    }
    assert!(find_sub(listing, b"/* __SOURCE__ inside */").is_some());
    assert!(find_sub(listing, b"/* __PAYLOAD__ too */").is_some());
    assert!(find_sub(listing, b"/*  */").is_some());
    assert!(find_sub(listing, b"/* last line */").is_some());
}

#[test]
fn uncompressed_render_splices_payload_verbatim() {
    let l = Language::new(b"shell", b"#!s\n# __SOURCE__\n__PAYLOAD__#e\n").unwrap();
    let out = rustcodex::render::render_with(&l, &[], b"RAW BYTES");
    assert_eq!(out, b"#!s\n# Generated by `rustcodex`\n\nRAW BYTES#e\n".to_vec());
}

#[test]
fn empty_source_list_has_no_listing_note() {
    let l = Language::new(b"lua", b"-- __SOURCE__\n__PAYLOAD__\n").unwrap();
    let out = render(&l, &[], b"p");
    assert!(find_sub(&out, b"Heuristically").is_none());
    assert!(find_sub(&out, b"-- Generated by `rustcodex`\n").is_some());
}
