use hobkey::ustar::{UstarArchive, UstarHeader};

fn header(name: &str, size: usize) -> Vec<u8> {
    let mut h = vec![0u8; 512];
    h[..name.len()].copy_from_slice(name.as_bytes());
    let octal = format!("{:011o}", size);
    h[124..135].copy_from_slice(octal.as_bytes());
    h[257..263].copy_from_slice(b"ustar\0");
    h
}

fn archive() -> Vec<u8> {
    let mut a = header("./hello.txt", 5);
    let mut body = b"hello".to_vec();
    body.resize(512, 0);
    a.extend(body);
    a.extend(header("./resources/font.psf", 600));
    let mut body = vec![7u8; 600];
    body.resize(1024, 0);
    a.extend(body);
    a.extend(vec![0u8; 1024]);
    a
}

#[test]
fn header_length_is_octal() {
    let h = UstarHeader::parse(&header("a", 0o1234), 0);
    assert!(h.validate());
    assert_eq!(h.file_length(), 0o1234);
}

#[test]
fn header_without_magic_is_invalid() {
    let h = UstarHeader::parse(&vec![0u8; 512], 0);
    assert!(!h.validate());
}

#[test]
fn name_joins_prefix_and_name() {
    let mut raw = header("file", 1);
    raw[345..349].copy_from_slice(b"dir/");
    let h = UstarHeader::parse(&raw, 0);
    let (name, len) = h.file_name();
    assert_eq!(&name[..len], b"dir/file");
    assert!(h.compare_names("dir/file"));
    assert!(!h.compare_names("file"));
    assert!(!h.compare_names("dir/files"));
}

#[test]
fn iteration_walks_members_in_order() {
    let a = UstarArchive::new(archive(), 4096);
    let mut it = a.iter();
    let (h1, f1) = it.next().unwrap();
    assert!(h1.compare_names("./hello.txt"));
    assert_eq!(f1, b"hello".to_vec());
    let (h2, f2) = it.next().unwrap();
    assert!(h2.compare_names("./resources/font.psf"));
    assert_eq!(f2.len(), 600);
    assert!(it.next().is_none());
}

#[test]
fn find_file_by_name() {
    let a = UstarArchive::new(archive(), 4096);
    let (h, f) = a.iter().find_file("./resources/font.psf").unwrap();
    assert_eq!(h.file_length(), 600);
    assert_eq!(f[0], 7);
    assert!(a.iter().find_file("./missing").is_none());
}
