use std::io::Write;

use imos::archive::{
    names_entry, normalized_archive_mode, unpack_dir, unpack_dir_entries, unpack_file,
    unpack_file_entries, validate_archive_path, validate_entry_type, Step, Work,
};
use imos::plan::ArchiveKind;
use imos::tarball::Member;

fn header(size: u64, mode: u32, kind: tar::EntryType) -> tar::Header {
    let mut header = tar::Header::new_gnu();
    header.set_size(size);
    header.set_mode(mode);
    header.set_entry_type(kind);
    header
}

fn make_tar(entries: &[(&str, &[u8], u32)]) -> Vec<u8> {
    let mut builder = tar::Builder::new(Vec::new());
    for (path, contents, mode) in entries {
        let kind = if mode & 0o40000 != 0 {
            tar::EntryType::Directory
        } else {
            tar::EntryType::Regular
        };
        let mut header = header(contents.len() as u64, *mode, kind);
        builder.append_data(&mut header, path, *contents).unwrap();
    }
    builder.into_inner().unwrap()
}

fn raw_tar(path: &[u8], kind: tar::EntryType) -> Vec<u8> {
    let mut header = header(0, 0o644, kind);
    header.as_old_mut().name[..path.len()].copy_from_slice(path);
    header.set_cksum();
    let mut builder = tar::Builder::new(Vec::new());
    builder.append(&header, std::io::empty()).unwrap();
    builder.into_inner().unwrap()
}

fn gzip(data: &[u8]) -> Vec<u8> {
    let mut encoder = flate2::write::GzEncoder::new(Vec::new(), flate2::Compression::default());
    encoder.write_all(data).unwrap();
    encoder.finish().unwrap()
}

fn zstd(data: &[u8]) -> Vec<u8> {
    zstd::stream::encode_all(data, 0).unwrap()
}

fn told(step: &Step) -> String {
    let text = |bytes: &Vec<u8>| String::from_utf8(bytes.clone()).unwrap();
    match step {
        Step::CreateTree { path } => format!("tree {}", text(path)),
        Step::SetMode { path, mode } => format!("mode {} {:o}", text(path), mode),
        Step::CopyNew { from, to, mode } => {
            format!("copy {} {} {:o}", text(from), text(to), mode)
        }
        Step::WriteNew { to, contents, mode } => {
            format!("write {} {} {:o}", text(to), text(contents), mode)
        }
        Step::BeginNew { to, contents } => format!("begin {} {}", text(to), text(contents)),
        Step::EnsureDirectory { path, mode } => format!("dir {} {:o}", text(path), mode),
        Step::Normalize { path, mode } => format!("normalize {} {:o}", text(path), mode),
    }
}

fn steps(work: &Work) -> Vec<String> {
    work.steps.iter().map(told).collect()
}

fn failure(work: &Work) -> String {
    work.failure.as_ref().unwrap().message()
}

fn member(path: &str, contents: &str) -> Result<Member, String> {
    Ok(Member {
        path: path.as_bytes().to_vec(),
        directory: false,
        file: true,
        mode: Some(0o600),
        contents: contents.as_bytes().to_vec(),
        damage: None,
    })
}

#[test]
fn archives_go_below_their_destination() {
    let data = make_tar(&[
        ("pkg", b"", 0o40755),
        ("pkg/bin", b"", 0o40700),
        ("pkg/bin/tool", b"run", 0o700),
        ("pkg/readme", b"text", 0o600),
    ]);
    let work = unpack_dir(&data, ArchiveKind::Tar, 1, b"/r/to");
    assert!(work.failure.is_none());
    assert_eq!(
        steps(&work),
        vec![
            "tree /r/to",
            "dir /r/to/bin 755",
            "write /r/to/bin/tool run 755",
            "write /r/to/readme text 644",
        ]
    );
}

#[test]
fn packed_archives_hold_the_same() {
    let plain = make_tar(&[("a/one", b"1", 0o644), ("a/two", b"2", 0o755)]);
    let expected = steps(&unpack_dir(&plain, ArchiveKind::Tar, 0, b"/r"));
    assert_eq!(expected.len(), 3);
    let packed = unpack_dir(&gzip(&plain), ArchiveKind::TarGzip, 0, b"/r");
    assert_eq!(steps(&packed), expected);
    assert!(packed.failure.is_none());
    let packed = unpack_dir(&zstd(&plain), ArchiveKind::TarZstd, 0, b"/r");
    assert_eq!(steps(&packed), expected);
    assert!(packed.failure.is_none());
}

#[test]
fn one_file_is_picked() {
    let data = make_tar(&[("pkg/a", b"first", 0o600), ("pkg/b", b"second", 0o711)]);
    let work = unpack_file(&data, ArchiveKind::Tar, b"pkg//b", b"/r/x");
    assert!(work.failure.is_none());
    assert_eq!(steps(&work), vec!["write /r/x second 755"]);
    let work = unpack_file(&gzip(&data), ArchiveKind::TarGzip, b"pkg/a", b"/r/x");
    assert_eq!(steps(&work), vec!["write /r/x first 644"]);
    let work = unpack_file(&zstd(&data), ArchiveKind::TarZstd, b"pkg/a", b"/r/x");
    assert_eq!(steps(&work), vec!["write /r/x first 644"]);
}

#[test]
fn a_missing_file_is_told() {
    let data = make_tar(&[("pkg/a", b"first", 0o600)]);
    let work = unpack_file(&data, ArchiveKind::Tar, b"pkg/c", b"/r/x");
    assert!(work.steps.is_empty());
    assert_eq!(failure(&work), "archive does not contain file: pkg/c");
}

#[test]
fn a_second_file_of_the_same_path_is_told() {
    let data = make_tar(&[("a", b"1", 0o600), ("b", b"2", 0o600), ("a", b"3", 0o600)]);
    let work = unpack_file(&data, ArchiveKind::Tar, b"a", b"/r/x");
    assert_eq!(steps(&work), vec!["write /r/x 1 644"]);
    assert_eq!(failure(&work), "archive contains duplicate path: a");
}

#[test]
fn a_directory_cannot_be_picked() {
    let data = make_tar(&[("pkg/", b"", 0o40755)]);
    let work = unpack_file(&data, ArchiveKind::Tar, b"pkg", b"/r/x");
    assert_eq!(
        failure(&work),
        "archive contains an unsafe path: pkg/: path contains an unsafe component: pkg/"
    );
    let entry = |directory| {
        let mut entry = member("pkg", "").unwrap();
        entry.directory = directory;
        entry.file = !directory;
        entry.mode = None;
        vec![Ok(entry)]
    };
    let work = unpack_file_entries(&entry(true), b"pkg", b"/r/x");
    assert_eq!(failure(&work), "archive entry is not a regular file");
    let work = unpack_file_entries(&entry(false), b"pkg", b"/r/x");
    assert_eq!(steps(&work), vec!["write /r/x  644"]);
}

#[test]
fn links_are_refused() {
    let data = raw_tar(b"link", tar::EntryType::Symlink);
    let work = unpack_dir(&data, ArchiveKind::Tar, 0, b"/r");
    assert_eq!(steps(&work), vec!["tree /r"]);
    assert_eq!(failure(&work), "archive contains an unsupported entry type: link");
    let work = unpack_file(&data, ArchiveKind::Tar, b"other", b"/r/x");
    assert_eq!(failure(&work), "archive contains an unsupported entry type: link");
}

#[test]
fn paths_that_leave_the_destination_are_refused() {
    let data = raw_tar(b"../escape", tar::EntryType::Regular);
    let work = unpack_dir(&data, ArchiveKind::Tar, 1, b"/r");
    assert_eq!(
        failure(&work),
        "archive contains an unsafe path: ../escape: path contains an unsafe component: ../escape"
    );
    let data = raw_tar(b"/etc/passwd", tar::EntryType::Regular);
    let work = unpack_file(&data, ArchiveKind::Tar, b"x", b"/r/x");
    assert_eq!(
        failure(&work),
        "archive contains an unsafe path: /etc/passwd: path must be relative: /etc/passwd"
    );
}

#[test]
fn what_is_no_archive_is_told() {
    let work = unpack_dir(b"not an archive\n", ArchiveKind::Tar, 0, b"/r");
    assert_eq!(steps(&work), vec!["tree /r"]);
    assert!(work.failure.is_some());
    let work = unpack_dir(b"not an archive\n", ArchiveKind::TarGzip, 0, b"/r");
    assert!(work.failure.is_some());
    let work = unpack_file(b"not an archive\n", ArchiveKind::TarZstd, b"x", b"/r");
    assert!(work.failure.is_some());
}

#[test]
fn a_tarball_that_is_cut_short_is_told() {
    let data = make_tar(&[("a", &[b'x'; 2000], 0o644)]);
    let work = unpack_dir(&data[..1024], ArchiveKind::Tar, 0, b"/r");
    assert_eq!(steps(&work)[1], format!("write /r/a {} 644", "x".repeat(512)));
    assert_eq!(failure(&work), "unexpected EOF during skip");
}

#[test]
fn damaged_contents_are_begun_and_told() {
    let mut damaged = member("a", "part").unwrap();
    damaged.damage = Some("cut off".to_owned());
    let entries = vec![Ok(damaged)];
    let work = unpack_dir_entries(&entries, 0, b"/r");
    assert_eq!(steps(&work), vec!["tree /r", "begin /r/a part"]);
    assert_eq!(failure(&work), "cut off");
    let work = unpack_file_entries(&entries, b"a", b"/r/x");
    assert_eq!(steps(&work), vec!["begin /r/x part"]);
    assert_eq!(failure(&work), "cut off");
}

#[test]
fn nothing_is_done_behind_an_unacceptable_entry() {
    let entries = vec![member("a", "1"), member("../b", "2"), member("c", "3")];
    let work = unpack_dir_entries(&entries, 0, b"/r");
    assert_eq!(steps(&work), vec!["tree /r", "write /r/a 1 644"]);
    assert!(work.failure.is_some());
    let entries = vec![member("a", "1"), Err("broken".to_owned())];
    let work = unpack_file_entries(&entries, b"a", b"/r/x");
    assert_eq!(steps(&work), vec!["write /r/x 1 644"]);
    assert_eq!(failure(&work), "broken");
}

#[test]
fn modes_are_normalized() {
    assert_eq!(normalized_archive_mode(0), 0o644);
    assert_eq!(normalized_archive_mode(0o666), 0o644);
    assert_eq!(normalized_archive_mode(0o100), 0o755);
    assert_eq!(normalized_archive_mode(0o010), 0o755);
    assert_eq!(normalized_archive_mode(0o001), 0o755);
    assert_eq!(normalized_archive_mode(0o4777), 0o755);
}

#[test]
fn entries_are_checked_one_by_one() {
    assert!(validate_archive_path(b"a/b").is_ok());
    assert_eq!(
        validate_archive_path(b".").unwrap_err().summary(),
        "archive contains an unsafe path: ."
    );
    assert!(validate_entry_type(true, false, b"a").is_ok());
    assert!(validate_entry_type(false, true, b"a").is_ok());
    assert_eq!(
        validate_entry_type(false, false, b"a").unwrap_err().message(),
        "archive contains an unsupported entry type: a"
    );
}

#[test]
fn some_paths_name_no_entry() {
    assert!(names_entry(b"/a"));
    assert!(names_entry(b"a"));
    assert!(!names_entry(b"/"));
    assert!(!names_entry(b""));
    let work = unpack_file_entries(&vec![member("a", "1")], b"a", b"/");
    assert_eq!(failure(&work), "installation target has no parent directory");
}
