use mini_fs::index::Index;
use mini_fs::{normalize_path, EntryKind, Path};

fn p(s: &str) -> Path {
    Path::new(s)
}

#[test]
fn index_insert_get() {
    let mut index = Index::new();

    index.insert(&p("a/foo.txt"), 1);
    index.insert(&p("a/b/c.txt"), 2);
    index.insert(&p("bar.txt"), 4);
    index.insert(&p("baz.txt"), 8);

    //   |- a
    //   |  |- foo.txt
    //   |  |- b
    //   |     |- c.txt
    //   |
    //   |- bar.txt
    //   |- baz.txt

    assert_eq!(Some(&1), index.get(&p("a/foo.txt")));
    assert_eq!(Some(&2), index.get(&p("a/b/c.txt")));
    assert_eq!(Some(&4), index.get(&p("bar.txt")));
    assert_eq!(Some(&8), index.get(&p("baz.txt")));

    assert_eq!(Some(&1), index.get(&p("./a/foo.txt")));
    assert_eq!(Some(&2), index.get(&p("./a/b/c.txt")));
    assert_eq!(Some(&4), index.get(&p("./bar.txt")));
    assert_eq!(Some(&8), index.get(&p("./baz.txt")));

    assert_eq!(None, index.get(&p("nope")));

    assert_eq!(None, index.get(&p("/a/foo.txt")));
    assert_eq!(None, index.get(&p("/a/b/c.txt")));
    assert_eq!(None, index.get(&p("/bar.txt")));
    assert_eq!(None, index.get(&p("/baz.txt")));
}

#[test]
fn index_entries_2() {
    let mut index = Index::new();

    index.insert(&p("nested/"), ());
    index.insert(&p("nested/hello.txt"), ());
    index.insert(&p("nested/world.txt"), ());
    index.insert(&p("nested"), ());
    index.insert(&p("hello.txt"), ());
    index.insert(&p("world.txt"), ());

    //   |- nested
    //   |  |- hello.txt
    //   |  |- world.txt
    //   |
    //   |- hello.txt
    //   |- world.txt

    assert_eq!(2, index.entries(&p("nested")).len());
    assert_eq!(3, index.entries(&p(".")).len());
}

#[test]
fn index_entries() {
    let mut index = Index::new();

    index.insert(&p("a/foo.txt"), ());
    index.insert(&p("a/b/c.txt"), ());
    index.insert(&p("a/b/d.txt"), ());
    index.insert(&p("foo.txt"), ());
    index.insert(&p("bar.txt"), ());
    index.insert(&p("baz.txt"), ());

    assert_eq!(4, index.entries(&p(".")).len());
    assert_eq!(2, index.entries(&p("a")).len());
    assert_eq!(2, index.entries(&p("a/b/")).len());
}

#[test]
fn test_normal_path() {
    assert_eq!(
        Path::new("smb:///a/b/c"),
        normalize_path(&Path::new("smb:///a/b/c"))
    );
    assert_eq!(Path::new("/a/b/c"), normalize_path(&Path::new("/a/b/c/../c")));
    assert_eq!(Path::new("/a/b"), normalize_path(&Path::new("/a/b/c/.././")));
    assert_eq!(Path::new("/"), normalize_path(&Path::new("/a/b/c/.././../../")));
}

#[test]
fn normalize_twice_changes_nothing() {
    for s in ["/x/y/../z", "./a/./b/..", "../../a", "a//b/./c/../../d", "/..", ".", ""] {
        let once = normalize_path(&Path::new(s));
        assert_eq!(once, normalize_path(&once));
    }
    assert_eq!(
        normalize_path(&Path::new("/x/y/../z")),
        normalize_path(&Path::new("/x/z"))
    );
    assert_eq!(normalize_path(&Path::new("../a")), Path::new("a"));
}

#[test]
fn path_components() {
    let comps = Path::new("/a//b/./c").components().clone();
    assert_eq!(comps, vec![b"/".to_vec(), b"a".to_vec(), b"b".to_vec(), b"c".to_vec()]);
    let comps = Path::new("./x").components().clone();
    assert_eq!(comps, vec![b".".to_vec(), b"x".to_vec()]);
    assert_eq!(Path::new("/a/b").to_bytes(), b"/a/b".to_vec());
    assert_eq!(Path::new("a/b/").to_bytes(), b"a/b".to_vec());
}

#[test]
fn directory_shadows_file() {
    let mut index = Index::new();
    index.insert(&p("a"), 1);
    assert_eq!(Some(&1), index.get(&p("a")));
    index.insert(&p("a/b"), 2);
    assert_eq!(None, index.get(&p("a")));
    assert!(!index.contains(&p("a")));
    let entries = index.entries(&p("."));
    assert_eq!(1, entries.len());
    assert_eq!(b"a".to_vec(), entries[0].name);
    assert_eq!(EntryKind::Dir, entries[0].kind);
    // a file insert onto a directory is dropped
    index.insert(&p("a"), 3);
    assert_eq!(None, index.get(&p("a")));
    assert_eq!(Some(&2), index.get(&p("a/b")));
}

#[test]
fn same_path_insert_replaces() {
    let mut index = Index::new();
    index.insert(&p("f"), 1);
    index.insert(&p("f"), 5);
    assert_eq!(Some(&5), index.get(&p("f")));
    assert_eq!(1, index.entries(&p("")).len());
}

#[test]
fn listing_order_files_then_dirs() {
    let mut index = Index::new();
    index.insert(&p("z.txt"), ());
    index.insert(&p("b/x"), ());
    index.insert(&p("a.txt"), ());
    index.insert(&p("A/x"), ());
    let names: Vec<(Vec<u8>, EntryKind)> = index
        .entries(&p("."))
        .into_iter()
        .map(|e| (e.name, e.kind))
        .collect();
    assert_eq!(
        names,
        vec![
            (b"a.txt".to_vec(), EntryKind::File),
            (b"z.txt".to_vec(), EntryKind::File),
            (b"A".to_vec(), EntryKind::Dir),
            (b"b".to_vec(), EntryKind::Dir),
        ]
    );
}

#[test]
fn empty_and_missing_listings_match() {
    let mut index = Index::new();
    index.insert(&p("d/f"), ());
    index.insert(&p("e/"), ());
    assert_eq!(0, index.entries(&p("d/f")).len());
    assert_eq!(0, index.entries(&p("never/made")).len());
    assert_eq!(0, index.entries(&p("e")).len());
    index.clear();
    assert_eq!(0, index.entries(&p(".")).len());
    assert_eq!(None, index.get(&p("d/f")));
}

#[test]
fn remove_file_keeps_directories() {
    let mut index = Index::new();
    index.insert(&p("d/f"), 1);
    index.insert(&p("g"), 2);
    assert_eq!(Some(1), index.remove(&p("./d/f")));
    assert_eq!(None, index.remove(&p("d/f")));
    assert_eq!(None, index.remove(&p("d")));
    assert_eq!(None, index.get(&p("d/f")));
    assert_eq!(Some(&2), index.get(&p("g")));
    assert_eq!(0, index.entries(&p("d")).len());
    assert_eq!(2, index.entries(&p("")).len());
}
