//! Source collection ordering: sorted by name, then by content.

use rustcodex::source::SourceFile;

fn sf(name: &str, code: &str) -> SourceFile {
    SourceFile::new(name.as_bytes().to_vec(), code.as_bytes().to_vec())
}

fn names(files: &[SourceFile]) -> Vec<Vec<u8>> {
    files.iter().map(|f| f.name().clone()).collect()
}

#[test]
fn load_sorts_by_name() {
    let out = SourceFile::load(vec![sf("b", "x"), sf("a", "y"), sf("c", "z")]);
    assert_eq!(names(&out), vec![b"a".to_vec(), b"b".to_vec(), b"c".to_vec()]);
}

#[test]
fn equal_names_sort_by_content() {
    let out = SourceFile::load(vec![sf("a", "2"), sf("a", "1"), sf("a", "3")]);
    assert_eq!(out[0].code().as_slice(), b"1");
    assert_eq!(out[1].code().as_slice(), b"2");
    assert_eq!(out[2].code().as_slice(), b"3");
}

#[test]
fn order_does_not_depend_on_arrival() {
    let one = SourceFile::load(vec![sf("m", "q"), sf("a", "y"), sf("a", "x"), sf("z", "t")]);
    let two = SourceFile::load(vec![sf("z", "t"), sf("a", "x"), sf("m", "q"), sf("a", "y")]);
    assert_eq!(one.len(), two.len());
    for (l, r) in one.iter().zip(two.iter()) {
        assert_eq!(l.name(), r.name());
        assert_eq!(l.code(), r.code());
    }
}

#[test]
fn names_order_bytewise() {
    let out = SourceFile::load(vec![sf("ab", ""), sf("a", ""), sf("", ""), sf("b", "")]);
    assert_eq!(
        names(&out),
        vec![b"".to_vec(), b"a".to_vec(), b"ab".to_vec(), b"b".to_vec()]
    );
}
