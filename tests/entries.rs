use mini_fs::{Entry, EntryKind, Error, File, MiniFs, RamFs, Store};
use std::collections::BTreeMap;

fn text(file: File) -> String {
    let mut file = file;
    let mut data = Vec::new();
    file.read_to_end(&mut data);
    String::from_utf8(data).unwrap()
}

fn names(entries: &[Entry]) -> Vec<Vec<u8>> {
    entries.iter().map(|e| e.name.clone()).collect()
}

#[test]
fn ram_fs_entries_kind() {
    let mut ram = RamFs::new();

    ram.touch("/a.txt", b"low a".to_vec());
    ram.touch("/A.TXT", b"high a".to_vec());
    ram.touch("/b/b.txt", b"low b".to_vec());
    ram.touch("/B/B.TXT", b"high b".to_vec());

    let mut map = BTreeMap::new();
    for entry in ram.entries("/") {
        map.insert(entry.name, entry.kind);
    }

    assert_eq!(Some(&EntryKind::File), map.get(b"a.txt".as_slice()));
    assert_eq!(Some(&EntryKind::File), map.get(b"A.TXT".as_slice()));
    assert_eq!(Some(&EntryKind::Dir), map.get(b"b".as_slice()));
    assert_eq!(Some(&EntryKind::Dir), map.get(b"B".as_slice()));
}

#[test]
fn mounted_memory_store_scenario() {
    let mut m = RamFs::new();
    m.touch("x.txt", b"hi".to_vec());
    let fs = MiniFs::new().mount("/files", Store::Ram(m));

    let mut file = fs.open("/files/x.txt").unwrap();
    assert_eq!(file.len(), 2);
    let mut data = Vec::new();
    assert_eq!(file.read_to_end(&mut data), 2);
    assert_eq!(data, b"hi".to_vec());

    assert!(matches!(fs.open("/files/missing"), Err(Error::FileNotFound)));

    let es = fs.entries("/files").unwrap();
    assert_eq!(es.len(), 1);
    assert_eq!(es[0].name, b"x.txt".to_vec());
    assert_eq!(es[0].kind, EntryKind::File);
}

#[test]
fn mount_precedence_and_umount() {
    let mut a = RamFs::new();
    a.touch("f.txt", b"A".to_vec());
    a.touch("only_a.txt", b"a".to_vec());
    let mut b = RamFs::new();
    b.touch("f.txt", b"B".to_vec());
    let mut fs = MiniFs::new().mount("/m", Store::Ram(a)).mount("/m/", Store::Ram(b));

    assert_eq!("B", text(fs.open("/m/f.txt").unwrap()));
    // the newest mount answers alone, even where it lacks the file
    assert!(matches!(fs.open("/m/only_a.txt"), Err(Error::FileNotFound)));
    // listings merge every matching mount, newest first
    assert_eq!(names(&fs.entries("/m").unwrap()), vec![b"f.txt".to_vec(), b"only_a.txt".to_vec()]);

    assert!(fs.umount("/m/./").is_some());
    assert_eq!("A", text(fs.open("/m/f.txt").unwrap()));
    assert_eq!("a", text(fs.open("/m/only_a.txt").unwrap()));
    assert!(fs.umount("/m").is_some());
    assert!(fs.umount("/m").is_none());
    assert!(matches!(fs.open("/m/f.txt"), Err(Error::FileNotFound)));
}

#[test]
fn umount_keeps_other_mounts_in_order() {
    let mut x = RamFs::new();
    x.touch("f", b"x".to_vec());
    let mut y = RamFs::new();
    y.touch("f", b"y".to_vec());
    let mut z = RamFs::new();
    z.touch("f", b"z".to_vec());
    let mut fs = MiniFs::new()
        .mount("/p", Store::Ram(x))
        .mount("/q", Store::Ram(y))
        .mount("/p", Store::Ram(z));
    assert_eq!("z", text(fs.open("/p/f").unwrap()));
    let removed = fs.umount("/p").unwrap();
    assert_eq!("z", text(removed.open("f").unwrap()));
    assert_eq!("x", text(fs.open("/p/f").unwrap()));
    assert_eq!("y", text(fs.open("/q/f").unwrap()));
}

#[test]
fn listing_empty_or_missing_is_empty() {
    let mut ram = RamFs::new();
    ram.touch("dir/file", b"1".to_vec());
    let fs = MiniFs::new().mount("/r", Store::Ram(ram));
    assert_eq!(fs.entries("/r/dir/file").unwrap().len(), 0);
    assert_eq!(fs.entries("/r/never").unwrap().len(), 0);
    assert_eq!(fs.entries("/nope").unwrap().len(), 0);
    assert!(fs.entries("/r").unwrap().len() == 1);
}

#[test]
fn nested_mount_tables() {
    let mut gfx = RamFs::new();
    gfx.touch("trash.gif", b"gif".to_vec());
    // below a mount the rest of the path is relative
    let assets = MiniFs::new().mount("gfx", Store::Ram(gfx));
    let root = MiniFs::new().mount("/assets", Store::Mounts(assets));
    assert_eq!("gif", text(root.open("/assets/gfx/trash.gif").unwrap()));
    assert!(root.open("/assets/sfx/x").is_err());
}

#[test]
fn file_seek_and_reread() {
    let mut ram = RamFs::new();
    ram.touch("f", b"abcdef".to_vec());
    let mut f1 = ram.open("f").unwrap();
    let mut f2 = ram.open("f").unwrap();
    f1.seek(4);
    let mut d1 = Vec::new();
    f1.read_to_end(&mut d1);
    assert_eq!(d1, b"ef".to_vec());
    let mut d2 = Vec::new();
    f2.read_to_end(&mut d2);
    assert_eq!(d2, b"abcdef".to_vec());
    f2.seek(10);
    let mut d3 = Vec::new();
    assert_eq!(f2.read_to_end(&mut d3), 0);
    ram.clear();
    assert!(ram.open("f").is_err());
}

#[test]
fn error_messages() {
    assert_eq!(Error::FileNotFound.message(), "File not found.");
    assert_eq!(Error::InvalidZip.message(), "File is likely not a Zip archive.");
}

#[test]
fn ram_rm() {
    let mut ram = RamFs::new().index();
    ram.touch("/x/y.txt", b"y".to_vec());
    assert_eq!(ram.rm("/x/y.txt"), Some(b"y".to_vec()));
    assert_eq!(ram.rm("/x/y.txt"), None);
    assert!(ram.open("/x/y.txt").is_err());
    assert_eq!(ram.entries("/x").len(), 0);
    assert_eq!(names(&ram.entries("/")), vec![b"x".to_vec()]);
}

#[test]
fn bounded_reads_advance() {
    let mut ram = RamFs::new();
    ram.touch("f", b"abcdef".to_vec());
    let mut f = ram.open("f").unwrap();
    let mut out = Vec::new();
    assert_eq!(f.read(&mut out, 4), 4);
    assert_eq!(f.pos(), 4);
    assert_eq!(f.read(&mut out, 4), 2);
    assert_eq!(f.read(&mut out, 4), 0);
    assert_eq!(out, b"abcdef".to_vec());
}
