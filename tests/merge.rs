use mini_fs::{File, MiniFs, RamFs, Store};

fn text(file: File) -> String {
    let mut file = file;
    let mut data = Vec::new();
    file.read_to_end(&mut data);
    String::from_utf8(data).unwrap()
}

fn stores() -> (RamFs, RamFs) {
    let mut a = RamFs::new();
    let mut b = RamFs::new();

    a.touch("a.txt", String::from("a.txt").into_bytes());
    a.touch("b.txt", String::from("b.txt").into_bytes());
    b.touch("a.txt", String::from("overriden").into_bytes());
    b.touch("c.txt", String::from("c.txt").into_bytes());
    (a, b)
}

#[test]
fn merge() {
    let (a, b) = stores();

    // a fixed pair of stores: `b` first
    let fs = MiniFs::new().mount("/files", Store::Overlay(vec![Store::Ram(b), Store::Ram(a)]));

    assert!(fs.open("/files/a.txt").is_ok());
    assert!(fs.open("/files/b.txt").is_ok());
    assert!(fs.open("/files/c.txt").is_ok());

    assert_eq!("overriden", text(fs.open("/files/a.txt").unwrap()));
}

#[test]
fn merge_vec() {
    let (a, b) = stores();

    let fs = MiniFs::new().mount("/files", Store::Overlay(vec![Store::Ram(b), Store::Ram(a)]));

    assert!(fs.open("/files/a.txt").is_ok());
    assert!(fs.open("/files/b.txt").is_ok());
    assert!(fs.open("/files/c.txt").is_ok());

    assert_eq!("overriden", text(fs.open("/files/a.txt").unwrap()));
}

#[test]
fn overlay_priority_and_single_listing() {
    let mut x = RamFs::new();
    let mut y = RamFs::new();
    x.touch("a.txt", b"from x".to_vec());
    y.touch("a.txt", b"from y".to_vec());
    y.touch("only_y.txt", b"y".to_vec());
    let overlay = Store::Overlay(vec![Store::Ram(x), Store::Ram(y)]);
    assert_eq!("from x", text(overlay.open("a.txt").unwrap()));
    assert_eq!("y", text(overlay.open("only_y.txt").unwrap()));
    let names: Vec<Vec<u8>> = overlay.entries(".").unwrap().into_iter().map(|e| e.name).collect();
    assert_eq!(names, vec![b"a.txt".to_vec(), b"only_y.txt".to_vec()]);
}

#[test]
fn overlay_first_entry_kind_wins() {
    let mut x = RamFs::new();
    let mut y = RamFs::new();
    x.touch("n/inner", b"d".to_vec());
    y.touch("n", b"file".to_vec());
    let overlay = Store::Overlay(vec![Store::Ram(x), Store::Ram(y)]);
    let es = overlay.entries("").unwrap();
    assert_eq!(es.len(), 1);
    assert_eq!(es[0].kind, mini_fs::EntryKind::Dir);
    assert!(overlay.open("n").is_ok());
}

#[test]
fn empty_overlay_finds_nothing() {
    let overlay = Store::Overlay(Vec::new());
    assert!(matches!(overlay.open("a"), Err(mini_fs::Error::FileNotFound)));
    assert_eq!(overlay.entries("a").unwrap().len(), 0);
}
