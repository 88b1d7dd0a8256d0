use zarrs_zip::{ArchiveEntry, EntryKind, IndexError, ZipIndex};

fn file(name: &str, size: u64) -> ArchiveEntry {
    ArchiveEntry {
        name: name.as_bytes().to_vec(),
        kind: EntryKind::File,
        stored: true,
        header_offset: 0,
        compressed_size: size,
        uncompressed_size: size,
    }
}

fn dir(name: &str) -> ArchiveEntry {
    ArchiveEntry {
        name: name.as_bytes().to_vec(),
        kind: EntryKind::Directory,
        stored: true,
        header_offset: 0,
        compressed_size: 0,
        uncompressed_size: 0,
    }
}

fn names(v: &[&str]) -> Vec<Vec<u8>> {
    v.iter().map(|s| s.as_bytes().to_vec()).collect()
}

/// The entries of an archive made by walking a directory tree: every
/// directory and every file, in walk order.
fn walked_tree() -> Vec<ArchiveEntry> {
    vec![
        dir("a/"),
        dir("a/b/"),
        file("a/b/zarr.json", 4),
        dir("a/c/"),
        file("a/c/zarr.json", 0),
        dir("a/d/"),
        dir("a/d/e/"),
        file("a/d/e/zarr.json", 0),
        dir("a/f/"),
        dir("a/f/g/"),
        file("a/f/g/zarr.json", 0),
        dir("a/f/h/"),
        file("a/f/h/zarr.json", 0),
        dir("b/"),
        file("b/zarr.json", 0),
        dir("b/c/"),
        dir("b/c/d/"),
        file("b/c/d/zarr.json", 0),
        dir("c/"),
        file("c/zarr.json", 0),
    ]
}

#[test]
fn zip_root() {
    let store = ZipIndex::build(walked_tree(), b"", 1000).unwrap();
    assert_eq!(
        store.list(),
        names(&[
            "a/b/zarr.json",
            "a/c/zarr.json",
            "a/d/e/zarr.json",
            "a/f/g/zarr.json",
            "a/f/h/zarr.json",
            "b/c/d/zarr.json",
            "b/zarr.json",
            "c/zarr.json",
        ])
    );
    assert_eq!(
        store.list_prefix(b"a/"),
        names(&[
            "a/b/zarr.json",
            "a/c/zarr.json",
            "a/d/e/zarr.json",
            "a/f/g/zarr.json",
            "a/f/h/zarr.json",
        ])
    );
    assert_eq!(store.list_prefix(b"a/d/"), names(&["a/d/e/zarr.json"]));
    assert_eq!(store.list_prefix(b""), store.list());

    let list = store.list_dir(b"a/");
    assert_eq!(list.keys, names(&[]));
    assert_eq!(list.prefixes, names(&["a/b/", "a/c/", "a/d/", "a/f/"]));

    assert_eq!(store.size_key(b"a/b/zarr.json"), Some(4));
    assert_eq!(store.size_key(b"a/c/zarr.json"), Some(0));
}

#[test]
fn zip_path() {
    let store = ZipIndex::build(walked_tree(), b"a/", 1000).unwrap();
    assert_eq!(
        store.list(),
        names(&[
            "b/zarr.json",
            "c/zarr.json",
            "d/e/zarr.json",
            "f/g/zarr.json",
            "f/h/zarr.json",
        ])
    );
    assert_eq!(store.list_prefix(b"a/"), names(&[]));
    assert_eq!(store.list_prefix(b"d/"), names(&["d/e/zarr.json"]));
    assert_eq!(store.list_prefix(b""), store.list());

    let list = store.list_dir(b"");
    assert_eq!(list.keys, names(&[]));
    assert_eq!(list.prefixes, names(&["b/", "c/", "d/", "f/"]));

    assert_eq!(store.size_key(b"b/zarr.json"), Some(4));
    assert_eq!(store.size_key(b"a/b/zarr.json"), None);
}

#[test]
fn zip_empty_directory() {
    let entries = vec![file("a/file.txt", 5), dir("a/empty/"), file("b/file.txt", 5)];
    let store = ZipIndex::build(entries, b"", 300).unwrap();

    assert_eq!(store.list(), names(&["a/file.txt", "b/file.txt"]));

    let list = store.list_dir(b"");
    assert_eq!(list.keys, names(&[]));
    assert_eq!(list.prefixes, names(&["a/", "b/"]));

    let list = store.list_dir(b"a/");
    assert_eq!(list.keys, names(&["a/file.txt"]));
    assert_eq!(list.prefixes, names(&["a/empty/"]));

    let list = store.list_dir(b"a/empty/");
    assert_eq!(list.keys, names(&[]));
    assert_eq!(list.prefixes, names(&[]));
}

#[test]
fn listing_without_directory_entries() {
    let entries = vec![
        file("c/zarr.json", 1),
        file("a/d/e/zarr.json", 1),
        file("b/zarr.json", 1),
        file("a/c/zarr.json", 1),
        file("a/b/zarr.json", 1),
    ];
    let store = ZipIndex::build(entries, b"", 100).unwrap();
    assert_eq!(
        store.list(),
        names(&["a/b/zarr.json", "a/c/zarr.json", "a/d/e/zarr.json", "b/zarr.json", "c/zarr.json"])
    );
    let list = store.list_dir(b"a/");
    assert_eq!(list.keys, names(&[]));
    assert_eq!(list.prefixes, names(&["a/b/", "a/c/", "a/d/"]));
    let list = store.list_dir(b"");
    assert_eq!(list.keys, names(&[]));
    assert_eq!(list.prefixes, names(&["a/", "b/", "c/"]));
    assert_eq!(store.list_prefix(b"a/d/"), names(&["a/d/e/zarr.json"]));
}

#[test]
fn list_dir_keeps_direct_files_and_one_level() {
    let entries = vec![
        file("x/top.json", 1),
        file("x/y/z/deep.json", 1),
        file("x/y/w.json", 1),
        dir("x/q/r/"),
    ];
    let store = ZipIndex::build(entries, b"", 100).unwrap();
    let list = store.list_dir(b"x/");
    assert_eq!(list.keys, names(&["x/top.json"]));
    // an explicit directory two levels down is not listed, nor synthesised
    assert_eq!(list.prefixes, names(&["x/y/"]));
}

#[test]
fn symlinks_and_root_are_dropped() {
    let mut link = file("a/link", 3);
    link.kind = EntryKind::Symlink;
    let entries = vec![dir("a/"), link, file("a/f", 3)];
    let store = ZipIndex::build(entries, b"a/", 100).unwrap();
    assert_eq!(store.list(), names(&["f"]));
    assert_eq!(store.size_key(b"link"), None);
    assert_eq!(store.list_dir(b"").prefixes, names(&[]));
}

#[test]
fn invalid_key_fails_build() {
    let r = ZipIndex::build(vec![file("a//b", 1)], b"", 10);
    assert!(matches!(r, Err(IndexError::InvalidKey(ref n)) if n == b"a//b"));
    let r = ZipIndex::build(vec![file("a/", 1)], b"", 10);
    assert!(matches!(r, Err(IndexError::InvalidKey(_))));
}

#[test]
fn invalid_prefix_fails_build() {
    let r = ZipIndex::build(vec![dir("/x/")], b"", 10);
    assert!(matches!(r, Err(IndexError::InvalidPrefix(ref n)) if n == b"/x/"));
}

#[test]
fn size_prefix_sums_compressed_sizes() {
    let mut big = file("a/big", 100);
    big.compressed_size = 40;
    let entries = vec![big, file("a/small", 3), file("b/other", 7), dir("a/sub/")];
    let store = ZipIndex::build(entries, b"", 500).unwrap();
    assert_eq!(store.size_prefix(b"a/"), 43);
    assert_eq!(store.size_prefix(b""), 50);
    assert_eq!(store.size_prefix(b"c/"), 0);
    assert_eq!(store.size(), 500);
    assert_eq!(store.size_key(b"a/big"), Some(100));
}

#[test]
fn later_entry_of_same_name_wins() {
    let entries = vec![file("k", 1), file("k", 2)];
    let store = ZipIndex::build(entries, b"", 10).unwrap();
    assert_eq!(store.size_key(b"k"), Some(2));
}

#[test]
fn prefix_run_is_found_by_search() {
    let store = ZipIndex::build(walked_tree(), b"", 1000).unwrap();
    let (lo, hi) = store.entries_with_prefix(b"a/f/");
    let run: Vec<Vec<u8>> = store.sorted[lo..hi].iter().map(|k| k.name.clone()).collect();
    assert_eq!(run, names(&["a/f/", "a/f/g/", "a/f/g/zarr.json", "a/f/h/", "a/f/h/zarr.json"]));
    let (lo, hi) = store.entries_with_prefix(b"zz/");
    assert_eq!(lo, hi);
    assert_eq!(store.entries_with_prefix(b""), (0, store.sorted.len()));
}

#[test]
fn doubled_separator_directory_splits_a_run() {
    let entries = vec![dir("a/b/"), dir("a/b//"), file("a/b/z", 1)];
    let store = ZipIndex::build(entries, b"", 10).unwrap();
    assert_eq!(store.list_dir(b"a/").prefixes, names(&["a/b/", "a/b//", "a/b/"]));
}
