use mini_fs::{Error, File, TarFs};
use std::io::Write;

fn text(file: File) -> String {
    let mut file = file;
    let mut data = Vec::new();
    file.read_to_end(&mut data);
    String::from_utf8(data).unwrap()
}

fn archive() -> Vec<u8> {
    let mut builder = tar::Builder::new(Vec::new());
    for (name, data) in [("a.txt", "hello\n"), ("b.txt", "world!\n")] {
        let mut header = tar::Header::new_gnu();
        header.set_size(data.len() as u64);
        header.set_mode(0o644);
        builder.append_data(&mut header, name, data.as_bytes()).unwrap();
    }
    builder.into_inner().unwrap()
}

fn gzipped(data: &[u8]) -> Vec<u8> {
    let mut enc = flate2::write::GzEncoder::new(Vec::new(), flate2::Compression::default());
    enc.write_all(data).unwrap();
    enc.finish().unwrap()
}

#[test]
fn tar() {
    let tar = TarFs::new(archive());
    for _ in 0..4 {
        let a = tar.open("a.txt").unwrap();
        let b = tar.open("b.txt").unwrap();

        assert_eq!("hello\n", text(a));
        assert_eq!("world!\n", text(b));
        assert!(tar.open("nope").is_err());
    }
}

#[test]
fn tar_gz() {
    let tar = TarFs::new(gzipped(&archive()));
    for _ in 0..4 {
        let a = tar.open("a.txt").unwrap();
        let b = tar.open("b.txt").unwrap();

        assert_eq!("hello\n", text(a));
        assert_eq!("world!\n", text(b));
        assert!(tar.open("nope").is_err());
    }
}

#[test]
fn tar_errors() {
    let tar = TarFs::new(archive());
    assert!(matches!(tar.open("nope"), Err(Error::FileNotFound)));
    assert!(matches!(tar.open("./a.txt"), Ok(_)));
    let broken = TarFs::new(vec![7u8; 700]);
    assert!(matches!(broken.open("a.txt"), Err(Error::Io)));
    assert_eq!(tar.entries_path(&mini_fs::Path::new(".")).len(), 0);
}
