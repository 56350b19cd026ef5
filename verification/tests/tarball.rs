use std::io::{Read, Write};

use imos::archive::unpack_dir;
use imos::plan::ArchiveKind;
use imos::tarball::{
    archive_reader, defuse, join_entries, unpack, wants_more, Header, Index, Member, Unpacked,
};

fn make_tar(entries: &[(&str, &[u8])]) -> Vec<u8> {
    let mut builder = tar::Builder::new(Vec::new());
    for (path, contents) in entries {
        let mut header = tar::Header::new_gnu();
        header.set_size(contents.len() as u64);
        header.set_mode(0o640);
        builder.append_data(&mut header, path, *contents).unwrap();
    }
    builder.into_inner().unwrap()
}

fn gzip(data: &[u8]) -> Vec<u8> {
    let mut encoder = flate2::write::GzEncoder::new(Vec::new(), flate2::Compression::none());
    encoder.write_all(data).unwrap();
    encoder.finish().unwrap()
}

/// Data that was packed in a block of its own, and a block behind it that cannot be
/// unpacked.
fn broken_zstd(data: &[u8]) -> Vec<u8> {
    let mut encoder = zstd::stream::write::Encoder::new(Vec::new(), 0).unwrap();
    encoder.write_all(data).unwrap();
    encoder.flush().unwrap();
    let end = encoder.get_ref().len();
    encoder.write_all(&[9; 3000]).unwrap();
    let mut packed = encoder.finish().unwrap();
    packed[end] |= 6;
    packed
}

/// Two blocks: the header of a sparse file of nearly all of 64 bits that goes on in
/// the next block, and that block.
fn overrun() -> Vec<u8> {
    let mut header = tar::Header::new_gnu();
    header.set_entry_type(tar::EntryType::GNUSparse);
    header.set_size(u64::MAX - 1023);
    header.as_gnu_mut().unwrap().set_is_extended(true);
    header.set_cksum();
    let mut data = header.as_bytes().to_vec();
    data.resize(1024, 0);
    data
}

fn member(entry: &Result<Member, String>) -> &Member {
    entry.as_ref().unwrap()
}

#[test]
fn entries_are_read_with_their_contents() {
    let data = make_tar(&[("a", b"12345"), ("b", b"")]);
    for (packed, kind) in [
        (data.clone(), ArchiveKind::Tar),
        (gzip(&data), ArchiveKind::TarGzip),
        (zstd::stream::encode_all(data.as_slice(), 0).unwrap(), ArchiveKind::TarZstd),
    ] {
        let whole = unpack(&packed, kind);
        assert_eq!(whole.bytes, data);
        assert!(whole.damage.is_none());
        let entries = archive_reader(&packed, kind);
        assert_eq!(entries.len(), 2);
        let first = member(&entries[0]);
        assert_eq!(first.path, b"a".to_vec());
        assert_eq!(first.mode, Some(0o640));
        assert!(first.file && !first.directory && first.damage.is_none());
        assert_eq!(first.contents, b"12345".to_vec());
        assert!(member(&entries[1]).contents.is_empty());
    }
}

#[test]
fn an_overrun_is_an_entry_that_cannot_be_read() {
    let data = overrun();
    let calm = defuse(&data);
    assert_eq!(calm.len(), data.len());
    assert_eq!((data[482], calm[482]), (1, 0));
    let entries = archive_reader(&data, ArchiveKind::Tar);
    assert_eq!(entries.len(), 1);
    assert!(entries[0].is_err());
    assert!(unpack_dir(&gzip(&data), ArchiveKind::TarGzip, 0, b"/r").failure.is_some());
    let packed = zstd::stream::encode_all(data.as_slice(), 0).unwrap();
    assert!(unpack_dir(&packed, ArchiveKind::TarZstd, 0, b"/r").failure.is_some());
}

#[test]
fn an_overrun_by_an_extended_header_is_found() {
    let record = b"30 size=+18446744073709550592\n";
    let mut header = tar::Header::new_ustar();
    header.set_entry_type(tar::EntryType::XHeader);
    header.set_size(record.len() as u64);
    header.set_cksum();
    let mut data = header.as_bytes().to_vec();
    data.extend(record);
    data.resize(1024, 0);
    let mut sparse = overrun();
    let mut header = tar::Header::new_gnu();
    header.set_entry_type(tar::EntryType::GNUSparse);
    header.set_size(0);
    header.as_gnu_mut().unwrap().set_is_extended(true);
    header.set_cksum();
    sparse[..512].copy_from_slice(header.as_bytes());
    data.extend(&sparse);
    assert_eq!(defuse(&data)[1024 + 482], 0);
    let entries = archive_reader(&data, ArchiveKind::Tar);
    assert!(entries.last().unwrap().is_err());
}

#[test]
fn a_file_may_hold_what_would_be_an_overrun() {
    let inner = overrun();
    let data = make_tar(&[("inner.tar", inner.as_slice()), ("b", b"2")]);
    assert_ne!(defuse(&data), data);
    let entries = archive_reader(&data, ArchiveKind::Tar);
    assert_eq!(entries.len(), 2);
    assert_eq!(member(&entries[0]).contents, inner);
    assert_eq!(member(&entries[1]).contents, b"2".to_vec());
}

#[test]
fn calm_data_is_left_as_it_is() {
    let data = make_tar(&[("a", b"size=1234567890123456789")]);
    assert_eq!(defuse(&data), data);
    assert!(defuse(b"").is_empty());
    let mut sparse = tar::Header::new_gnu();
    sparse.set_entry_type(tar::EntryType::GNUSparse);
    sparse.set_size(512);
    sparse.as_gnu_mut().unwrap().set_is_extended(true);
    sparse.set_cksum();
    assert_eq!(defuse(sparse.as_bytes()), sparse.as_bytes().to_vec());
}

#[test]
fn damage_behind_the_end_is_not_noticed() {
    let data = make_tar(&[("a", b"12345")]);
    let mut packed = gzip(&data);
    let end = packed.len() - 8;
    packed[end] ^= 1;
    let whole = unpack(&packed, ArchiveKind::TarGzip);
    assert_eq!(whole.bytes, data);
    assert!(whole.damage.is_some());
    let entries = archive_reader(&packed, ArchiveKind::TarGzip);
    assert_eq!(entries.len(), 1);
    assert_eq!(member(&entries[0]).contents, b"12345".to_vec());
}

#[test]
fn damage_close_behind_the_end_is_not_noticed() {
    let data = make_tar(&[("a", b"12345"), ("b", b"2")]);
    let packed = broken_zstd(&data);
    let whole = unpack(&packed, ArchiveKind::TarZstd);
    assert_eq!(whole.bytes, data);
    assert!(whole.damage.is_some());
    let entries = archive_reader(&packed, ArchiveKind::TarZstd);
    assert_eq!(entries.len(), 2);
    assert_eq!(member(&entries[1]).contents, b"2".to_vec());
    assert!(unpack_dir(&packed, ArchiveKind::TarZstd, 0, b"/r").failure.is_none());
}

#[test]
fn damage_close_behind_an_entry_is_told_after_it() {
    let data = make_tar(&[("a", b"12345"), ("b", b"2")]);
    for end in [512 + 5, 1024, 1024 + 100] {
        let packed = broken_zstd(&data[..end]);
        let whole = unpack(&packed, ArchiveKind::TarZstd);
        assert_eq!(whole.bytes, data[..end].to_vec());
        let entries = archive_reader(&packed, ArchiveKind::TarZstd);
        assert_eq!(entries.len(), 2);
        assert_eq!(member(&entries[0]).contents, b"12345".to_vec());
        assert!(member(&entries[0]).damage.is_none());
        assert_eq!(entries[1].as_ref().err(), whole.damage.as_ref());
    }
}

#[test]
fn an_error_before_the_damage_keeps_its_reason() {
    let mut data = make_tar(&[("a", b"12345")]);
    data.truncate(1024);
    data.resize(1536, b'x');
    let packed = broken_zstd(&data);
    let plain = archive_reader(&data, ArchiveKind::Tar);
    let entries = archive_reader(&packed, ArchiveKind::TarZstd);
    assert_eq!(entries.len(), 2);
    let reason = entries[1].as_ref().unwrap_err();
    assert_eq!(reason, plain[1].as_ref().unwrap_err());
    assert_ne!(Some(reason), unpack(&packed, ArchiveKind::TarZstd).damage.as_ref());
}

#[test]
fn a_search_goes_on_until_it_is_answered() {
    let data = make_tar(&[("a", b"12345")]);
    assert!(wants_more(b""));
    assert!(wants_more(&data[..511]));
    assert!(wants_more(&data[..512]));
    assert!(wants_more(&data[..1023]));
    assert!(wants_more(&data[..1024]));
    assert!(wants_more(&data[..1535]));
    assert!(!wants_more(&data[..1536]));
    assert!(!wants_more(&data));
    assert!(!wants_more(&[b'x'; 512]));
}

#[test]
fn a_long_name_may_look_like_the_header_of_a_sparse_file() {
    let mut name = "d/".to_owned() + &"a".repeat(122) + "\u{e9}";
    while name.len() < 600 {
        name.push(match name.len() {
            156 => 'S',
            482 => '\u{1}',
            _ => 'a',
        });
    }
    let data = make_tar(&[(&name, b"12345")]);
    let start = 512;
    assert_eq!((data[start + 156], data[start + 482]), (b'S', 1));
    assert!(data[start + 124] >= 128 && data[start + 128] >= 64);
    assert_eq!(defuse(&data), data);
    let entries = archive_reader(&data, ArchiveKind::Tar);
    assert_eq!(entries.len(), 1);
    assert_eq!(member(&entries[0]).path, name.into_bytes());
}

#[test]
fn damage_within_the_entries_is_told() {
    let data = make_tar(&[("a", &[7_u8; 5000]), ("b", b"2")]);
    let packed = gzip(&data);
    let whole = unpack(&packed[..2000], ArchiveKind::TarGzip);
    assert!(whole.bytes.len() < 2000);
    let reason = whole.damage.clone().unwrap();
    let entries = archive_reader(&packed[..2000], ArchiveKind::TarGzip);
    assert_eq!(entries.len(), 2);
    let cut = member(&entries[0]);
    assert_eq!(cut.contents.len(), whole.bytes.len() - 512);
    assert_eq!(cut.damage.as_ref(), Some(&reason));
    assert_eq!(entries[1].as_ref().unwrap_err(), &reason);
    assert!(archive_reader(b"no gzip", ArchiveKind::TarGzip)[0].is_err());
    assert!(archive_reader(b"no zstd", ArchiveKind::TarZstd)[0].is_err());
}

fn header(offset: u64, size: u64) -> Result<Header, String> {
    Ok(Header { path: b"a".to_vec(), directory: false, file: true, mode: None, offset, size })
}

fn joined(damage: bool, headers: Vec<Result<Header, String>>, onward: bool) -> Vec<String> {
    let damage = if damage { Some("cut".to_owned()) } else { None };
    let whole = Unpacked { bytes: vec![0; 1024], damage };
    let entries = join_entries(&whole, &Index { headers, rest: 0 }, onward);
    entries.into_iter().filter_map(Result::err).collect()
}

#[test]
fn damage_is_told_where_more_was_wanted() {
    assert_eq!(joined(true, vec![header(512, 512)], true), vec!["cut"]);
    assert!(joined(true, vec![header(512, 512)], false).is_empty());
    assert!(joined(false, vec![header(512, 512)], true).is_empty());
    assert_eq!(joined(true, Vec::new(), true), vec!["cut"]);
    assert_eq!(joined(true, vec![header(512, 0), Err("eof".to_owned())], true), vec!["cut"]);
    assert_eq!(joined(true, vec![Err("bad".to_owned())], false), vec!["bad"]);
    assert_eq!(joined(false, vec![Err("bad".to_owned())], true), vec!["bad"]);
}

/// What comes of an archive that is read entry by entry: paths and contents, and
/// why nothing more comes.
type Account = (Vec<(Vec<u8>, Vec<u8>)>, Option<String>);

fn read_along(reader: impl Read) -> Account {
    let mut found = Vec::new();
    for entry in tar::Archive::new(reader).entries().unwrap() {
        let mut entry = match entry {
            Ok(entry) => entry,
            Err(error) => return (found, Some(error.to_string())),
        };
        let mut contents = Vec::new();
        if let Err(error) = std::io::copy(&mut entry, &mut contents) {
            return (found, Some(error.to_string()));
        }
        found.push((entry.path_bytes().into_owned(), contents));
    }
    (found, None)
}

fn read_at_once(data: &[u8], kind: ArchiveKind) -> Account {
    let mut found = Vec::new();
    for entry in archive_reader(data, kind) {
        match entry {
            Ok(Member { damage: None, path, contents, .. }) => found.push((path, contents)),
            Ok(Member { damage, .. }) => return (found, damage),
            Err(reason) => return (found, Some(reason)),
        }
    }
    (found, None)
}

fn noise(length: usize) -> Vec<u8> {
    let mut state: u32 = 1;
    let mut bytes = Vec::new();
    for _ in 0..length {
        state = state.wrapping_mul(1_664_525).wrapping_add(1_013_904_223);
        bytes.push(state.to_be_bytes()[0] % 64);
    }
    bytes
}

fn damaged(packed: &[u8], position: usize) -> Vec<u8> {
    let mut damaged = packed.to_vec();
    damaged[position] ^= 0x55;
    damaged
}

#[test]
fn damage_anywhere_in_gzip_is_noticed_as_when_read_along() {
    let mut data = make_tar(&[("a", &noise(700)), ("b", b""), ("c", &noise(90))]);
    data.extend(noise(2000));
    let mut encoder = flate2::write::GzEncoder::new(Vec::new(), flate2::Compression::default());
    encoder.write_all(&data).unwrap();
    encoder.flush().unwrap();
    encoder.write_all(&noise(3000)).unwrap();
    let packed = encoder.finish().unwrap();
    for position in (0..packed.len()).step_by(3) {
        let bad = damaged(&packed, position);
        let along = read_along(flate2::read::GzDecoder::new(bad.as_slice()));
        assert_eq!(read_at_once(&bad, ArchiveKind::TarGzip), along, "{position}");
        let cut = &packed[..position];
        let along = read_along(flate2::read::GzDecoder::new(cut));
        assert_eq!(read_at_once(cut, ArchiveKind::TarGzip), along, "{position}");
    }
}

#[test]
fn damage_anywhere_in_zstd_is_noticed_as_when_read_along() {
    let mut data = make_tar(&[("a", &noise(700)), ("b", b""), ("c", &noise(90))]);
    data.extend(noise(150_000));
    let packed = zstd::stream::encode_all(data.as_slice(), 0).unwrap();
    for position in (0..packed.len()).filter(|k| *k < 40 || *k % 4999 == 0) {
        let bad = damaged(&packed, position);
        let along = read_along(zstd::stream::read::Decoder::new(bad.as_slice()).unwrap());
        assert_eq!(read_at_once(&bad, ArchiveKind::TarZstd), along, "{position}");
        let cut = &packed[..position];
        let along = read_along(zstd::stream::read::Decoder::new(cut).unwrap());
        assert_eq!(read_at_once(cut, ArchiveKind::TarZstd), along, "{position}");
    }
}
