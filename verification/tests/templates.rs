//! Template validation: the marker contract, name handling, and the corpus.

use rustcodex::corpus::Corpus;
use rustcodex::template::{Language, TemplateError};

fn lang(name: &str, text: &str) -> Result<Language, TemplateError> {
    Language::new(name.as_bytes(), text.as_bytes())
}

#[test]
fn wellformed_template_accepted() {
    let l = lang("python", "#!x\n# __SOURCE__ tail\nmid\n__PAYLOAD__\nrest\n").unwrap();
    assert_eq!(l.name().as_slice(), b"Python");
    assert_eq!(l.preamble().as_slice(), b"#!x\n");
    assert_eq!(l.pre().as_slice(), b"# ");
    assert_eq!(l.post().as_slice(), b" tail");
    assert_eq!(l.middle().as_slice(), b"\nmid\n");
    assert_eq!(l.postamble().as_slice(), b"\nrest\n");
}

#[test]
fn crlf_line_keeps_suffix_clean() {
    let l = lang("python", "a\r\n# __SOURCE__ t\r\nmid __PAYLOAD__ rest").unwrap();
    assert_eq!(l.preamble().as_slice(), b"a\r\n");
    assert_eq!(l.pre().as_slice(), b"# ");
    assert_eq!(l.post().as_slice(), b" t");
    assert_eq!(l.middle().as_slice(), b"\r\nmid ");
    assert_eq!(l.postamble().as_slice(), b" rest");
}

#[test]
fn missing_source_rejected() {
    assert_eq!(lang("python", "__PAYLOAD__\n").unwrap_err(), TemplateError::MissingSource);
}

#[test]
fn missing_payload_rejected() {
    assert_eq!(lang("python", "__SOURCE__\nx\n").unwrap_err(), TemplateError::MissingPayload);
}

#[test]
fn duplicate_source_rejected() {
    assert_eq!(
        lang("python", "__SOURCE__\n__SOURCE__\n__PAYLOAD__\n").unwrap_err(),
        TemplateError::DuplicateSource
    );
}

#[test]
fn duplicate_payload_rejected() {
    assert_eq!(
        lang("python", "__SOURCE__\n__PAYLOAD__\n__PAYLOAD__\n").unwrap_err(),
        TemplateError::DuplicatePayload
    );
}

#[test]
fn payload_before_source_rejected() {
    assert_eq!(
        lang("python", "__PAYLOAD__\n__SOURCE__\n").unwrap_err(),
        TemplateError::Misordered
    );
}

#[test]
fn markers_on_one_line_rejected() {
    assert_eq!(
        lang("python", "# __SOURCE__ __PAYLOAD__\n").unwrap_err(),
        TemplateError::SameLine
    );
    assert_eq!(
        lang("python", "x\n__SOURCE__ then __PAYLOAD__").unwrap_err(),
        TemplateError::SameLine
    );
}

#[test]
fn overlapping_markers_rejected() {
    // `__SOURCE__PAYLOAD__` holds both markers, sharing two underscores.
    assert_eq!(lang("python", "__SOURCE__PAYLOAD__\n").unwrap_err(), TemplateError::SameLine);
}

#[test]
fn nonalphabetic_name_rejected() {
    assert_eq!(lang("py3", "__SOURCE__\n__PAYLOAD__\n").unwrap_err(), TemplateError::BadName);
    assert_eq!(lang("", "__SOURCE__\n__PAYLOAD__\n").unwrap_err(), TemplateError::BadName);
    assert_eq!(lang("c-sharp", "__SOURCE__\n__PAYLOAD__\n").unwrap_err(), TemplateError::BadName);
}

fn file(name: &str, text: &str) -> (Vec<u8>, Vec<u8>) {
    (name.as_bytes().to_vec(), text.as_bytes().to_vec())
}

const OK_TEXT: &str = "# __SOURCE__\n__PAYLOAD__\n";

#[test]
fn corpus_sorted_by_name() {
    let files = vec![
        file("python.ext", OK_TEXT),
        file("ada.ext", OK_TEXT),
        file("java.ext", OK_TEXT),
    ];
    let c = Corpus::compile(files.as_slice()).unwrap();
    assert_eq!(c.len(), 3);
    assert_eq!(c.get(0).name().as_slice(), b"Ada");
    assert_eq!(c.get(1).name().as_slice(), b"Java");
    assert_eq!(c.get(2).name().as_slice(), b"Python");
}

#[test]
fn corpus_duplicate_language_rejected() {
    let files = vec![file("python.a", OK_TEXT), file("PYTHON.b", OK_TEXT)];
    let e = Corpus::compile(files.as_slice()).unwrap_err();
    assert_eq!(e.error, TemplateError::DuplicateLanguage);
    assert_eq!(e.name.as_slice(), b"Python");
}

#[test]
fn corpus_filename_without_dot_rejected() {
    let files = vec![file("python", OK_TEXT)];
    let e = Corpus::compile(files.as_slice()).unwrap_err();
    assert_eq!(e.error, TemplateError::BadFileName);
    assert_eq!(e.name.as_slice(), b"python");
}

#[test]
fn corpus_error_names_offending_language() {
    let files = vec![file("python.ext", OK_TEXT), file("java.ext", "no markers")];
    let e = Corpus::compile(files.as_slice()).unwrap_err();
    assert_eq!(e.error, TemplateError::MissingSource);
    assert_eq!(e.name.as_slice(), b"java");
}

#[test]
fn selection_is_case_insensitive() {
    let files = vec![file("python.ext", OK_TEXT), file("java.ext", OK_TEXT)];
    let c = Corpus::compile(files.as_slice()).unwrap();
    let i = c.select(b"python").unwrap();
    assert_eq!(c.get(i).name().as_slice(), b"Python");
    assert_eq!(c.select(b"PYTHON"), Some(i));
    assert_eq!(c.select(b"Python"), Some(i));
    assert_eq!(c.select(b"pYtHoN"), Some(i));
    assert_eq!(c.select(b"rust"), None);
}
