use cotti_build_support::path::{escape, extension, file_name, is_glob_pattern, join};

fn text(v: Option<Vec<u8>>) -> Option<String> {
    v.map(|b| String::from_utf8(b).unwrap())
}

fn joined(base: &str, name: &str) -> String {
    String::from_utf8(join(base.as_bytes(), name.as_bytes())).unwrap()
}

#[test]
fn join_inserts_one_separator() {
    assert_eq!(joined("/tmp/dir", "*"), "/tmp/dir/*");
    assert_eq!(joined("/tmp/dir/", "*"), "/tmp/dir/*");
    assert_eq!(joined("", "file.txt"), "file.txt");
    assert_eq!(joined("dir", "**/*"), "dir/**/*");
}

#[test]
fn join_absolute_name_replaces_base() {
    assert_eq!(joined("/tmp/dir", "/etc/passwd"), "/etc/passwd");
}

#[test]
fn join_empty_name_keeps_separator() {
    assert_eq!(joined("/tmp/dst", ""), "/tmp/dst/");
    assert_eq!(joined("/tmp/dst/", ""), "/tmp/dst/");
}

#[test]
fn file_name_of_plain_paths() {
    assert_eq!(text(file_name(b"/tmp/dir/file1.txt")).as_deref(), Some("file1.txt"));
    assert_eq!(text(file_name(b"file1.txt")).as_deref(), Some("file1.txt"));
    assert_eq!(text(file_name(b"a//b")).as_deref(), Some("b"));
    assert_eq!(text(file_name(b"./a")).as_deref(), Some("a"));
    assert_eq!(text(file_name(b".bashrc")).as_deref(), Some(".bashrc"));
}

#[test]
fn file_name_skips_trailing_separators_and_dots() {
    assert_eq!(text(file_name(b"foo.txt/.")).as_deref(), Some("foo.txt"));
    assert_eq!(text(file_name(b"foo.txt/.//")).as_deref(), Some("foo.txt"));
    assert_eq!(text(file_name(b"/tmp/dir/")).as_deref(), Some("dir"));
    assert_eq!(text(file_name(b"a/./")).as_deref(), Some("a"));
}

#[test]
fn file_name_absent() {
    for p in ["foo.txt/..", "..", "/", "", ".", "./"] {
        assert_eq!(file_name(p.as_bytes()), None, "{}", p);
    }
}

#[test]
fn file_name_keeps_bytes_that_are_not_utf8() {
    assert_eq!(file_name(b"/tmp/\xff\xfe.bin"), Some(b"\xff\xfe.bin".to_vec()));
}

#[test]
fn extension_after_last_dot() {
    assert_eq!(text(extension(b"files.tar.gz")).as_deref(), Some("gz"));
    assert_eq!(text(extension(b"/a.b/files.tar")).as_deref(), Some("tar"));
    assert_eq!(text(extension(b"name.")).as_deref(), Some(""));
    assert_eq!(text(extension(b"..x")).as_deref(), Some("x"));
    assert_eq!(text(extension(b"dir/files.tgz/")).as_deref(), Some("tgz"));
}

#[test]
fn extension_absent() {
    for p in [".bashrc", "README", "a.b/README", "foo.txt/..", ""] {
        assert_eq!(extension(p.as_bytes()), None, "{}", p);
    }
}

#[test]
fn glob_characters() {
    assert!(is_glob_pattern(b"/tmp/*"));
    assert!(is_glob_pattern(b"file?.txt"));
    assert!(is_glob_pattern(b"file[12].txt"));
    assert!(!is_glob_pattern(b"/tmp/plain/path.txt"));
    assert!(!is_glob_pattern(b"/tmp/a]b"));
    assert!(!is_glob_pattern(b""));
    assert!(is_glob_pattern("ünïcode/*".as_bytes()));
}

#[test]
fn escape_brackets_metacharacters() {
    assert_eq!(escape(b"/t/[a]"), b"/t/[[]a[]]".to_vec());
    assert_eq!(escape(b"a*b?c"), b"a[*]b[?]c".to_vec());
    assert_eq!(escape(b"/plain/dir"), b"/plain/dir".to_vec());
    assert_eq!(escape(b""), Vec::<u8>::new());
}

#[test]
fn joined_name_is_file_name() {
    for dst in ["/tmp/dst", "/tmp/dst/", "", "rel"] {
        for name in ["file.txt", ".hidden", "a.b.c", "..."] {
            assert_eq!(text(file_name(&join(dst.as_bytes(), name.as_bytes()))).as_deref(), Some(name));
        }
    }
}

#[test]
fn file_name_is_plain_component() {
    for p in ["/a/b", "a/./", "foo.txt/.//", "./x", "/x/y/.z"] {
        let n = file_name(p.as_bytes()).unwrap();
        assert!(!n.is_empty());
        assert!(!n.contains(&b'/'));
        assert!(n != b"." && n != b"..");
    }
}
