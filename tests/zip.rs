use mini_fs::{Error, File, Path, Store, ZipFs};
use std::io::Write;

fn text(file: File) -> String {
    let mut file = file;
    let mut data = Vec::new();
    file.read_to_end(&mut data);
    String::from_utf8(data).unwrap()
}

fn archive(dirs: &[&str], files: &[(&str, &str)]) -> Vec<u8> {
    let mut w = zip::ZipWriter::new(std::io::Cursor::new(Vec::new()));
    for d in dirs {
        w.add_directory(*d, zip::write::SimpleFileOptions::default()).unwrap();
    }
    for (name, data) in files {
        w.start_file(*name, zip::write::SimpleFileOptions::default()).unwrap();
        w.write_all(data.as_bytes()).unwrap();
    }
    w.finish().unwrap().into_inner()
}

#[test]
fn zip() {
    let zip = ZipFs::new(archive(&[], &[("hello.txt", "hello\n"), ("world.txt", "world!\n")]));

    for _ in 0..4 {
        let hello = zip.open("hello.txt").unwrap();
        let world = zip.open("world.txt").unwrap();
        assert_eq!("hello\n", text(hello));
        assert_eq!("world!\n", text(world));
    }
}

#[test]
fn zip_entries() {
    let bytes = archive(
        &["nested/"],
        &[
            ("nested/hello.txt", "hello\n"),
            ("nested/world.txt", "world!\n"),
            ("hello.txt", "hello\n"),
            ("world.txt", "world!\n"),
        ],
    );
    let zip = ZipFs::new(bytes).index().unwrap();

    assert_eq!(2, zip.entries("nested").len());
    assert_eq!(3, zip.entries(".").len());
}

#[test]
fn zip_errors() {
    let zip = ZipFs::new(archive(&[], &[("a.txt", "a")]));
    assert!(matches!(zip.open("b.txt"), Err(Error::FileNotFound)));
    assert!(matches!(zip.open_path(&Path::from_bytes(&[0xff])), Err(Error::Utf8)));
    assert_eq!(zip.entries(".").len(), 0);
    assert!(matches!(ZipFs::new(b"not a zip".to_vec()).index(), Err(Error::InvalidZip)));
    let store = Store::Zip(zip.index().unwrap());
    assert_eq!(store.entries(".").unwrap().len(), 1);
    assert_eq!("a", text(store.open("a.txt").unwrap()));
}

fn crafted_offset_archive() -> Vec<u8> {
    let mut cd = Vec::new();
    cd.extend_from_slice(&0x0201_4b50u32.to_le_bytes());
    cd.extend_from_slice(&[20, 0, 20, 0, 0, 0, 0, 0, 0, 0, 0, 0]);
    cd.extend_from_slice(&[0; 12]);
    cd.extend_from_slice(&1u16.to_le_bytes());
    cd.extend_from_slice(&12u16.to_le_bytes());
    cd.extend_from_slice(&[0; 10]);
    cd.extend_from_slice(&0xFFFF_FFFFu32.to_le_bytes());
    cd.push(b'a');
    cd.extend_from_slice(&1u16.to_le_bytes());
    cd.extend_from_slice(&8u16.to_le_bytes());
    cd.extend_from_slice(&u64::MAX.to_le_bytes());
    let mut out = vec![0u8];
    out.extend_from_slice(&cd);
    out.extend_from_slice(&0x0605_4b50u32.to_le_bytes());
    out.extend_from_slice(&[0, 0, 0, 0, 1, 0, 1, 0]);
    out.extend_from_slice(&(cd.len() as u32).to_le_bytes());
    out.extend_from_slice(&0u32.to_le_bytes());
    out.extend_from_slice(&0u16.to_le_bytes());
    out
}

#[test]
fn zip_crafted_offset_is_an_error() {
    let bytes = crafted_offset_archive();
    assert!(ZipFs::new(bytes.clone()).index().is_err());
    assert!(ZipFs::new(bytes).open("a").is_err());
}
