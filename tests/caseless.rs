use mini_fs::{CaselessFs, Error, File, Path, RamFs, Store};

fn text(file: File) -> String {
    let mut file = file;
    let mut data = Vec::new();
    file.read_to_end(&mut data);
    String::from_utf8(data).unwrap()
}

fn sample() -> RamFs {
    let mut ram = RamFs::new();
    ram.touch("/a.txt", b"low a".to_vec());
    ram.touch("/A.TXT", b"high a".to_vec());
    ram.touch("/b/b.txt", b"low b".to_vec());
    ram.touch("/B/B.TXT", b"high b".to_vec());
    ram
}

#[test]
fn caseless() {
    let mut caseless = CaselessFs::new(Store::Ram(sample()));

    // open with exact path
    assert_eq!("low a", text(caseless.open("/a.txt").unwrap()));
    assert_eq!("high a", text(caseless.open("/A.TXT").unwrap()));
    assert_eq!("low b", text(caseless.open("/b/b.txt").unwrap()));
    assert_eq!("high b", text(caseless.open("/B/B.TXT").unwrap()));

    // add with get_mut
    match caseless.get_mut() {
        Store::Ram(ram) => ram.touch("/c.txt", b"c".to_vec()),
        _ => unreachable!(),
    }
    assert_eq!("c", text(caseless.open("/c.txt").unwrap()));

    // find with caseless path
    assert_eq!(caseless.find(&Path::new("/A.txt")).len(), 2);

    assert_eq!(caseless.find(&Path::new("/b/B.txt")).len(), 2);

    // open with caseless path
    let txt = text(caseless.open("/A.tXt").unwrap());
    assert_eq!(["low a", "high a"].iter().any(|s| s == &txt), true);

    let txt = text(caseless.open("/b/B.tXt").unwrap());
    assert_eq!(["low b", "high b"].iter().any(|s| s == &txt), true);
}

#[test]
fn caseless_multiplicity_relative() {
    let mut ram = RamFs::new();
    ram.touch("A.TXT", b"upper".to_vec());
    ram.touch("a.txt", b"lower".to_vec());
    let caseless = CaselessFs::new(Store::Ram(ram));
    let found = caseless.find(&Path::new("a.TXT"));
    assert_eq!(found.len(), 2);
    assert!(found.contains(&Path::new("A.TXT")));
    assert!(found.contains(&Path::new("a.txt")));
    let txt = text(caseless.open("a.TXT").unwrap());
    assert!(txt == "upper" || txt == "lower");
}

#[test]
fn caseless_folds_only_ascii_and_reports_missing() {
    let mut ram = RamFs::new();
    ram.touch("Straße.TXT", b"s".to_vec());
    let caseless = CaselessFs::new(Store::Ram(ram));
    assert_eq!(caseless.find(&Path::new("straße.txt")).len(), 1);
    assert_eq!(caseless.find(&Path::new("STRASSE.TXT")).len(), 0);
    assert_eq!(caseless.find(&Path::new("nope/straße.txt")).len(), 0);
    assert!(matches!(caseless.open("missing"), Err(Error::FileNotFound)));
    let inner = caseless.into_inner();
    assert!(matches!(inner.open("straße.txt"), Err(Error::FileNotFound)));
}

#[test]
fn caseless_raw_names_compare_exactly() {
    let mut ram = RamFs::new();
    ram.touch_path(&Path::from_bytes(&[0xff, b'A']), b"raw".to_vec());
    let caseless = CaselessFs::new(Store::Ram(ram));
    assert_eq!(caseless.find(&Path::from_bytes(&[0xff, b'A'])).len(), 1);
    assert_eq!(caseless.find(&Path::from_bytes(&[0xff, b'a'])).len(), 0);
    assert!(caseless.get_ref().open_path(&Path::from_bytes(&[0xff, b'A'])).is_ok());
}
