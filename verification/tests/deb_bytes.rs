use std::io::Write;

use sigma_updates::archive::check_reads;
use sigma_updates::inspect::{inspect_deb_bytes, DebError};

const CONTROL: &str = "\
Package: sigma-updates-depdemo
Version: 0.1.0-1
Architecture: all
Depends: sigma-updates-sample (>= 0.1.0), libc6 (<< 3) | musl (<= 1.2)
Description: Demo package
";

fn tar_of(path: &str, body: &[u8]) -> Vec<u8> {
    let mut builder = tar::Builder::new(Vec::new());
    let mut header = tar::Header::new_gnu();
    header.set_size(body.len() as u64);
    header.set_mode(0o644);
    header.set_cksum();
    builder.append_data(&mut header, path, body).unwrap();
    builder.into_inner().unwrap()
}

fn gzip(bytes: &[u8]) -> Vec<u8> {
    let mut enc = flate2::write::GzEncoder::new(Vec::new(), flate2::Compression::default());
    enc.write_all(bytes).unwrap();
    enc.finish().unwrap()
}

fn ar_of(members: &[(&str, Vec<u8>)]) -> Vec<u8> {
    let mut builder = ar::Builder::new(Vec::new());
    for (name, data) in members {
        let header = ar::Header::new(name.as_bytes().to_vec(), data.len() as u64);
        builder.append(&header, data.as_slice()).unwrap();
    }
    builder.into_inner().unwrap()
}

fn deb(control_member: &str, control_tar: Vec<u8>) -> Vec<u8> {
    ar_of(&[
        ("debian-binary", b"2.0\n".to_vec()),
        (control_member, control_tar),
        ("data.tar.gz", gzip(&tar_of("./usr/share/doc/x", b"x"))),
    ])
}

#[test]
fn reads_the_control_file_of_a_gzip_deb() {
    let bytes = deb("control.tar.gz", gzip(&tar_of("./control", CONTROL.as_bytes())));
    assert!(check_reads(&bytes, 3));
    let c = inspect_deb_bytes(&bytes).unwrap().unwrap();
    assert_eq!(c.package, "sigma-updates-depdemo");
    assert_eq!(c.version, "0.1.0-1");
    assert_eq!(c.depends.len(), 2);
    assert_eq!(c.depends[1].to_string(), "libc6 (<< 3) | musl (<= 1.2)");
}

#[test]
fn reads_an_uncompressed_control_tarball() {
    let bytes = deb("control.tar", tar_of("control", CONTROL.as_bytes()));
    let c = inspect_deb_bytes(&bytes).unwrap().unwrap();
    assert_eq!(c.package, "sigma-updates-depdemo");
}

#[test]
fn refuses_a_zstd_control_tarball() {
    let bytes = deb("control.tar.zst", vec![0, 1, 2, 3]);
    match inspect_deb_bytes(&bytes) {
        Some(Err(DebError::Archive(m))) => assert_eq!(m, "control.tar.zst is not supported yet"),
        other => panic!("unexpected {other:?}"),
    }
}

#[test]
fn reports_a_missing_control_member() {
    let bytes = ar_of(&[("debian-binary", b"2.0\n".to_vec())]);
    match inspect_deb_bytes(&bytes) {
        Some(Err(e)) => assert_eq!(e.message(), "not a debian package archive: missing control.tar.* member"),
        other => panic!("unexpected {other:?}"),
    }
}

#[test]
fn reports_a_missing_control_file() {
    let bytes = deb("control.tar.gz", gzip(&tar_of("./md5sums", b"")));
    match inspect_deb_bytes(&bytes) {
        Some(Err(DebError::Archive(m))) => assert_eq!(m, "control file not found in control.tar"),
        other => panic!("unexpected {other:?}"),
    }
}

#[test]
fn reports_a_control_file_without_a_package() {
    let bytes = deb("control.tar.gz", gzip(&tar_of("./control", b"Version: 1\n")));
    assert!(matches!(inspect_deb_bytes(&bytes), Some(Err(DebError::Control(_)))));
}

#[test]
fn refuses_a_long_name_beyond_the_name_table() {
    // A GNU long name `/99` with no name table would make the `ar` reader
    // slice past its table.
    let mut bytes = b"!<arch>\n".to_vec();
    bytes.extend_from_slice(format!("{:<16}{:<12}{:<6}{:<6}{:<8}{:<10}`\n", "/99", 0, 0, 0, 644, 2).as_bytes());
    bytes.extend_from_slice(b"ab");
    assert!(!check_reads(&bytes, 1));
    assert!(inspect_deb_bytes(&bytes).is_none());
}

#[test]
fn accepts_a_long_name_inside_the_name_table() {
    let mut bytes = b"!<arch>\n".to_vec();
    bytes.extend_from_slice(format!("{:<16}{:<12}{:<6}{:<6}{:<8}{:<10}`\n", "//", 0, 0, 0, 644, 20).as_bytes());
    bytes.extend_from_slice(b"control.tar.gzip/\n  ");
    bytes.extend_from_slice(format!("{:<16}{:<12}{:<6}{:<6}{:<8}{:<10}`\n", "/0", 0, 0, 0, 644, 2).as_bytes());
    bytes.extend_from_slice(b"ab");
    assert!(check_reads(&bytes, 1));
    assert!(matches!(inspect_deb_bytes(&bytes), Some(Err(_))));
}

#[test]
fn bytes_that_are_no_archive_are_an_archive_error() {
    assert!(check_reads(b"hello", 1));
    assert!(matches!(inspect_deb_bytes(b"not an ar archive at all"), Some(Err(DebError::Archive(_)))));
}

fn header(name: &str, size: &str) -> Vec<u8> {
    format!("{:<16}{:<12}{:<6}{:<6}{:<8}{:<10}`\n", name, 0, 0, 0, 644, size).into_bytes()
}

#[test]
fn a_size_written_with_a_plus_sign_is_read() {
    let mut bytes = b"!<arch>\n".to_vec();
    bytes.extend(header("a", "+0"));
    assert!(check_reads(&bytes, 1));
    match inspect_deb_bytes(&bytes) {
        Some(Err(e)) => assert_eq!(e.message(), "not a debian package archive: missing control.tar.* member"),
        other => panic!("unexpected {other:?}"),
    }
}

#[test]
fn a_malformed_header_is_the_readers_error() {
    let mut bytes = b"!<arch>\n".to_vec();
    bytes.extend(header("a", "x1"));
    assert!(check_reads(&bytes, 1));
    assert!(matches!(inspect_deb_bytes(&bytes), Some(Err(DebError::Archive(_)))));
}

#[test]
fn a_damaged_member_after_the_control_member_is_not_read() {
    let mut bytes = deb("control.tar.gz", gzip(&tar_of("./control", CONTROL.as_bytes())));
    bytes.extend(header("/99", "2"));
    bytes.extend_from_slice(b"ab");
    assert!(!check_reads(&bytes, 4));
    let c = inspect_deb_bytes(&bytes).unwrap().unwrap();
    assert_eq!(c.package, "sigma-updates-depdemo");
}

#[test]
fn a_bsd_long_name_is_read() {
    let mut bytes = b"!<arch>\n".to_vec();
    bytes.extend(header("#1/16", "20"));
    bytes.extend_from_slice(b"debian-binary\0\0\0");
    bytes.extend_from_slice(b"2.0\n");
    assert!(check_reads(&bytes, 2));
    match inspect_deb_bytes(&bytes) {
        Some(Err(e)) => assert_eq!(e.message(), "not a debian package archive: missing control.tar.* member"),
        other => panic!("unexpected {other:?}"),
    }
}
