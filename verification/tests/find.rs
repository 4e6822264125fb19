use cotti_build_support::find::{
    find_dirs, find_files, matched_paths, search_pattern, EntryKind, FoundPath, GlobEntry,
};

fn found(path: &str, kind: EntryKind) -> FoundPath {
    FoundPath { path: path.as_bytes().to_vec(), kind }
}

fn texts(v: Vec<Vec<u8>>) -> Vec<String> {
    v.into_iter().map(|b| String::from_utf8(b).unwrap()).collect()
}

fn pattern(p: &str, is_dir: bool) -> String {
    String::from_utf8(search_pattern(p.as_bytes(), is_dir)).unwrap()
}

#[test]
fn find_specific_file() {
    let path = "/tmp/.tmpQwErTy";
    assert_eq!(pattern(path, false), path);
    let found_files = matched_paths(Some(vec![GlobEntry::Match(path.as_bytes().to_vec())]));
    assert!(found_files.len() == 1);
    assert!(found_files[0] == path.as_bytes());

    // Once the file is gone the walk lists nothing.
    let found_files = matched_paths(Some(Vec::new()));
    assert!(found_files.is_empty());
}

#[test]
fn find_files_and_folders_mixed() {
    let parent = "/tmp/.tmpParent";
    assert_eq!(pattern(parent, true), "/tmp/.tmpParent/*");
    let listing = vec![
        found("/tmp/.tmpParent/.tmp0aaaaa", EntryKind::File),
        found("/tmp/.tmpParent/.tmp1bbbbb", EntryKind::Dir),
        found("/tmp/.tmpParent/.tmp2ccccc", EntryKind::File),
        found("/tmp/.tmpParent/.tmp3ddddd", EntryKind::Dir),
        found("/tmp/.tmpParent/.tmp4eeeee", EntryKind::File),
    ];
    let all = matched_paths(Some(
        listing.iter().map(|f| GlobEntry::Match(f.path.clone())).collect(),
    ));
    assert!(all.len() == 5);

    let files = find_files(&listing);
    assert!(files.len() == 3);
    assert_eq!(
        texts(files),
        vec![
            "/tmp/.tmpParent/.tmp0aaaaa",
            "/tmp/.tmpParent/.tmp2ccccc",
            "/tmp/.tmpParent/.tmp4eeeee"
        ]
    );

    let dirs = find_dirs(&listing);
    assert!(dirs.len() == 2);
    assert_eq!(
        texts(dirs),
        vec!["/tmp/.tmpParent/.tmp1bbbbb", "/tmp/.tmpParent/.tmp3ddddd"]
    );
}

#[test]
fn directory_pattern_searches_its_contents() {
    assert_eq!(pattern("/tmp/dir", true), "/tmp/dir/*");
    assert_eq!(pattern("/tmp/dir/", true), "/tmp/dir/*");
    assert_eq!(pattern("/tmp/dir/*.txt", false), "/tmp/dir/*.txt");
}

#[test]
fn directory_name_taken_literally() {
    assert_eq!(pattern("/t/[a]", true), "/t/[[]a[]]/*");
    assert_eq!(pattern("/t/a*b?", true), "/t/a[*]b[?]/*");
}

#[test]
fn directory_search_same_as_star() {
    for dir in ["/tmp/dir", "rel/dir", "/"] {
        let star = String::from_utf8(cotti_build_support::path::join(dir.as_bytes(), b"*")).unwrap();
        assert_eq!(pattern(dir, true), pattern(&star, false));
    }
}

#[test]
fn invalid_pattern_finds_nothing() {
    assert!(matched_paths(None).is_empty());
}

#[test]
fn unreadable_entries_are_skipped() {
    let r = matched_paths(Some(vec![
        GlobEntry::Unreadable,
        GlobEntry::Match(b"a".to_vec()),
        GlobEntry::Unreadable,
        GlobEntry::Match(b"b".to_vec()),
    ]));
    assert_eq!(texts(r), vec!["a", "b"]);
}

#[test]
fn other_entries_are_neither_files_nor_dirs() {
    let listing = vec![
        found("sock", EntryKind::Other),
        found("f", EntryKind::File),
        found("d", EntryKind::Dir),
    ];
    let files = texts(find_files(&listing));
    let dirs = texts(find_dirs(&listing));
    assert_eq!(files, vec!["f"]);
    assert_eq!(dirs, vec!["d"]);
    assert!(files.len() + dirs.len() + 1 == listing.len());
    assert!(files.iter().all(|f| !dirs.contains(f)));
}

#[test]
fn nothing_found_is_empty() {
    assert!(find_files(&Vec::new()).is_empty());
    assert!(find_dirs(&Vec::new()).is_empty());
}
