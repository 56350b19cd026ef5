//! Tarballs: what is unpacked of them, and the entries that they hold.

use std::io::Read;

use vstd::prelude::*;

use crate::plan::ArchiveKind;

verus! {

use crate::text::optional_text;

/// What a decoder makes of a byte string.
#[derive(Debug)]
pub struct Unpacked {
    /// All bytes that came.
    pub bytes: Vec<u8>,
    /// Why no more came, where they broke off.
    pub damage: Option<String>,
}

/// The mathematical form of [`Unpacked`].
pub struct UnpackedView {
    pub bytes: Seq<u8>,
    pub damage: Option<Seq<char>>,
}

impl View for Unpacked {
    type V = UnpackedView;

    open spec fn view(&self) -> UnpackedView {
        UnpackedView { bytes: self.bytes@, damage: optional_text(self.damage) }
    }
}

/// What `flate2::read::GzDecoder` makes of a byte string that is read byte by byte.
pub uninterp spec fn gzip_unpacked(data: Seq<u8>) -> UnpackedView;

/// What `zstd::stream::read::Decoder` makes of a byte string that is read byte by
/// byte.
pub uninterp spec fn zstd_unpacked(data: Seq<u8>) -> UnpackedView;

/// Reads `flate2::read::GzDecoder` on the data byte by byte, to its end or as far
/// as it goes: a decoder that fails hands out nothing of what it is asked for, so
/// not more than one byte is asked for at a time.
#[verifier::external_body]
fn read_gzip(data: &[u8]) -> (unpacked: Unpacked)
    ensures
        unpacked@ == gzip_unpacked(data@),
{
    let mut bytes = Vec::new();
    let read = flate2::read::GzDecoder::new(data)
        .bytes()
        .try_for_each(|byte| byte.map(|byte| bytes.push(byte)));
    Unpacked { bytes, damage: read.err().map(|error| error.to_string()) }
}

/// Reads `zstd::stream::read::Decoder` on the data byte by byte, to its end or as
/// far as it goes. A decoder that cannot be set up goes nowhere. Where blocks of a
/// frame are shorter than what a decoder is asked for at a time, it looks at the
/// block behind them too before it hands them out; asked for a byte it does not.
#[verifier::external_body]
fn read_zstd(data: &[u8]) -> (unpacked: Unpacked)
    ensures
        unpacked@ == zstd_unpacked(data@),
{
    let mut bytes = Vec::new();
    let read = zstd::stream::read::Decoder::new(data).and_then(
        |decoder| decoder.bytes().try_for_each(|byte| byte.map(|byte| bytes.push(byte))),
    );
    Unpacked { bytes, damage: read.err().map(|error| error.to_string()) }
}

/// What is unpacked of an archive of a kind.
pub open spec fn unpacked(kind: ArchiveKind, data: Seq<u8>) -> UnpackedView {
    match kind {
        ArchiveKind::Tar => UnpackedView { bytes: data, damage: None },
        ArchiveKind::TarGzip => gzip_unpacked(data),
        ArchiveKind::TarZstd => zstd_unpacked(data),
    }
}

/// Unpacks an archive of a kind.
pub fn unpack(data: &[u8], kind: ArchiveKind) -> (result: Unpacked)
    ensures
        result@ == unpacked(kind, data@),
{
    match kind {
        ArchiveKind::Tar => Unpacked { bytes: vstd::slice::slice_to_vec(data), damage: None },
        ArchiveKind::TarGzip => read_gzip(data),
        ArchiveKind::TarZstd => read_zstd(data),
    }
}

/// The size of a block of a tarball.
pub const BLOCK: usize = 512;

/// Where the size of an entry stands in its header.
pub const SIZE_FIELD: usize = 124;

/// Where the upper byte of a size stands that is not written in octal.
pub const UPPER_SIZE: usize = 128;

/// Where the type of an entry stands in its header.
pub const TYPE_FIELD: usize = 156;

/// Where the format of a header stands in it.
pub const FORMAT_FIELD: usize = 257;

/// Where the header of a sparse file says that it goes on in the next block.
pub const EXTENDED_FIELD: usize = 482;

/// The type of a sparse file.
pub const SPARSE_TYPE: u8 = 83;

/// Whether nineteen decimal digits stand at an offset.
pub open spec fn digits_at(data: Seq<u8>, offset: int) -> bool {
    &&& 0 <= offset
    &&& offset + 19 <= data.len()
    &&& forall|k: int| offset <= k < offset + 19 ==> 48 <= #[trigger] data[k] <= 57
}

/// Whether an extended header gives a size of nineteen digits or more at an
/// offset.
pub open spec fn long_size_at(data: Seq<u8>, offset: int) -> bool {
    &&& 0 <= offset
    &&& offset + 5 < data.len()
    &&& data[offset] == 115
    &&& data[offset + 1] == 105
    &&& data[offset + 2] == 122
    &&& data[offset + 3] == 101
    &&& data[offset + 4] == 61
    &&& digits_at(data, offset + 5) || data[offset + 5] == 43 && digits_at(data, offset + 6)
}

/// Whether an extended header gives a size of nineteen digits or more anywhere.
pub open spec fn has_long_size(data: Seq<u8>) -> bool {
    exists|offset: int| long_size_at(data, offset)
}

/// Whether a header that begins at an offset is in the format of GNU: `ustar`, two
/// blanks and a byte of zero.
pub open spec fn is_gnu_header(data: Seq<u8>, start: int) -> bool {
    &&& data[start + FORMAT_FIELD] == 117
    &&& data[start + FORMAT_FIELD + 1] == 115
    &&& data[start + FORMAT_FIELD + 2] == 116
    &&& data[start + FORMAT_FIELD + 3] == 97
    &&& data[start + FORMAT_FIELD + 4] == 114
    &&& data[start + FORMAT_FIELD + 5] == 32
    &&& data[start + FORMAT_FIELD + 6] == 32
    &&& data[start + FORMAT_FIELD + 7] == 0
}

/// Whether a block, read as a header, is that of a sparse file which goes on in
/// the next block and may claim a size of two to the power of 62 or more. To look
/// for the entry behind that one, its size is added to that of all blocks before
/// it and of those in which its header goes on. With a lesser size the sum stays
/// within 64 bits, since a byte string is shorter than two to the power of 63.
///
/// Only a header in the format of GNU can go on, and that format has a byte of
/// zero, which no name of a file can hold.
pub open spec fn is_overrun(data: Seq<u8>, block: int) -> bool {
    let start = block * BLOCK;
    &&& 0 <= block
    &&& start + BLOCK <= data.len()
    &&& data[start + TYPE_FIELD] == SPARSE_TYPE
    &&& is_gnu_header(data, start)
    &&& data[start + EXTENDED_FIELD] == 1
    &&& data[start + SIZE_FIELD] >= 128 && data[start + UPPER_SIZE] >= 64 || has_long_size(data)
}

/// Whether no block is an overrun.
pub open spec fn is_calm(data: Seq<u8>) -> bool {
    forall|block: int| !is_overrun(data, block)
}

/// The data with the overruns made to end where they are. As a header, such a block
/// has a wrong checksum then.
pub open spec fn defused(data: Seq<u8>) -> Seq<u8> {
    Seq::new(
        data.len(),
        |k: int|
            if k % (BLOCK as int) == EXTENDED_FIELD && is_overrun(data, k / (BLOCK as int)) {
                0u8
            } else {
                data[k]
            },
    )
}

proof fn lemma_place_in_block(block: int, field: int)
    requires
        0 <= block,
        0 <= field < BLOCK,
    ensures
        (block * BLOCK + field) % (BLOCK as int) == field,
        (block * BLOCK + field) / (BLOCK as int) == block,
{
    assert((block * 512 + field) % 512 == field && (block * 512 + field) / 512 == block)
        by (nonlinear_arith)
        requires
            0 <= block,
            0 <= field < 512,
    ;
}

proof fn lemma_field_is_kept(data: Seq<u8>, block: int, field: int)
    requires
        0 <= block,
        block * BLOCK + BLOCK <= data.len(),
        0 <= field < BLOCK,
        field != EXTENDED_FIELD,
    ensures
        defused(data)[block * BLOCK + field] == data[block * BLOCK + field],
{
    lemma_place_in_block(block, field);
}

proof fn lemma_digits_were_there(data: Seq<u8>, offset: int)
    requires
        digits_at(defused(data), offset),
    ensures
        digits_at(data, offset),
{
    assert forall|k: int| offset <= k < offset + 19 implies 48 <= #[trigger] data[k] <= 57 by {
        assert(48 <= defused(data)[k] <= 57);
    }
}

proof fn lemma_defused_is_calm(data: Seq<u8>)
    ensures
        is_calm(defused(data)),
        defused(data).len() == data.len(),
{
    let calm = defused(data);
    assert(has_long_size(calm) ==> has_long_size(data)) by {
        if has_long_size(calm) {
            let offset = choose|offset: int| long_size_at(calm, offset);
            if digits_at(calm, offset + 5) {
                lemma_digits_were_there(data, offset + 5);
            } else {
                lemma_digits_were_there(data, offset + 6);
            }
            assert(long_size_at(data, offset));
        }
    }
    assert forall|block: int| !is_overrun(calm, block) by {
        if is_overrun(calm, block) {
            assert forall|field: int|
                0 <= field < BLOCK && field != EXTENDED_FIELD implies #[trigger] calm[block * BLOCK
                + field] == data[block * BLOCK + field] by {
                lemma_field_is_kept(data, block, field);
            }
            let start = block * BLOCK;
            assert(calm[start + FORMAT_FIELD] == data[start + FORMAT_FIELD]);
            assert(is_gnu_header(data, start));
            lemma_place_in_block(block, EXTENDED_FIELD as int);
            assert(is_overrun(data, block));
        }
    }
}

/// Data without an overrun is left as it is.
pub proof fn calm_data_is_left_alone(data: Seq<u8>)
    requires
        is_calm(data),
    ensures
        defused(data) == data,
{
    assert(defused(data) =~= data);
}

fn has_digits_at(data: &[u8], offset: usize) -> (found: bool)
    ensures
        found == digits_at(data@, offset as int),
{
    if offset > data.len() || data.len() - offset < 19 {
        return false;
    }
    let mut k: usize = 0;
    while k < 19
        invariant
            k <= 19,
            offset + 19 <= data.len(),
            forall|j: int| offset <= j < offset + k ==> 48 <= #[trigger] data@[j] <= 57,
        decreases 19 - k,
    {
        let byte: u8 = data[offset + k];
        if byte < 48 || byte > 57 {
            assert(!(48 <= data@[offset + k] <= 57));
            return false;
        }
        k += 1;
    }
    true
}

fn finds_long_size(data: &[u8]) -> (found: bool)
    ensures
        found == has_long_size(data@),
{
    let mut i: usize = 0;
    while i < data.len()
        invariant
            i <= data.len(),
            forall|k: int| 0 <= k < i ==> !long_size_at(data@, k),
        decreases data.len() - i,
    {
        if data[i] == 115 && data.len() - i > 5 {
            if data[i + 1] == 105 && data[i + 2] == 122 && data[i + 3] == 101 && data[i + 4] == 61 {
                let long = if has_digits_at(data, i + 5) {
                    true
                } else {
                    data[i + 5] == 43 && data.len() - i > 6 && has_digits_at(data, i + 6)
                };
                if long {
                    assert(long_size_at(data@, i as int));
                    return true;
                }
            }
        }
        assert(!long_size_at(data@, i as int));
        i += 1;
    }
    false
}

fn has_gnu_header(data: &[u8], start: usize) -> (found: bool)
    requires
        start + BLOCK <= data.len(),
    ensures
        found == is_gnu_header(data@, start as int),
{
    data[start + FORMAT_FIELD] == 117 && data[start + FORMAT_FIELD + 1] == 115 && data[start
        + FORMAT_FIELD + 2] == 116 && data[start + FORMAT_FIELD + 3] == 97 && data[start
        + FORMAT_FIELD + 4] == 114 && data[start + FORMAT_FIELD + 5] == 32 && data[start
        + FORMAT_FIELD + 6] == 32 && data[start + FORMAT_FIELD + 7] == 0
}

/// Makes the overruns of a tarball end where they are.
pub fn defuse(data: &[u8]) -> (calm: Vec<u8>)
    ensures
        calm@ == defused(data@),
        is_calm(calm@),
{
    let long = finds_long_size(data);
    let mut calm = vstd::slice::slice_to_vec(data);
    let mut start: usize = 0;
    let ghost mut block: int = 0;
    while data.len() - start >= BLOCK
        invariant
            start <= data.len(),
            start == block * BLOCK,
            0 <= block,
            long == has_long_size(data@),
            calm@.len() == data@.len(),
            forall|k: int| 0 <= k < start ==> calm@[k] == #[trigger] defused(data@)[k],
            forall|k: int| start <= k < data@.len() ==> #[trigger] calm@[k] == data@[k],
        decreases data.len() - start,
    {
        let overrun = data[start + TYPE_FIELD] == SPARSE_TYPE && has_gnu_header(data, start)
            && data[start + EXTENDED_FIELD] == 1
            && (data[start + SIZE_FIELD] >= 128 && data[start + UPPER_SIZE] >= 64 || long);
        assert(overrun == is_overrun(data@, block));
        let ghost before = calm@;
        if overrun {
            calm.set(start + EXTENDED_FIELD, 0);
        }
        proof {
            assert forall|k: int| 0 <= k < start + BLOCK implies calm@[k] == #[trigger] defused(
                data@,
            )[k] by {
                if k >= start {
                    lemma_place_in_block(block, k - start);
                } else {
                    assert(calm@[k] == before[k]);
                }
            }
            block = block + 1;
        }
        start += BLOCK;
    }
    proof {
        assert forall|k: int| 0 <= k < data@.len() implies calm@[k] == #[trigger] defused(
            data@,
        )[k] by {
            if k >= start {
                lemma_place_in_block(block, k - start);
            }
        }
        assert(calm@ =~= defused(data@));
        lemma_defused_is_calm(data@);
    }
    calm
}

/// What the header of an entry says, and where its contents are.
#[derive(Debug)]
pub struct Header {
    pub path: Vec<u8>,
    pub directory: bool,
    pub file: bool,
    /// The mode, where the header holds a readable one.
    pub mode: Option<u32>,
    /// Where the contents begin.
    pub offset: u64,
    /// How long they are, as far as the header says.
    pub size: u64,
}

/// The mathematical form of [`Header`].
pub struct HeaderView {
    pub path: Seq<u8>,
    pub directory: bool,
    pub file: bool,
    pub mode: Option<u32>,
    pub offset: u64,
    pub size: u64,
}

impl View for Header {
    type V = HeaderView;

    open spec fn view(&self) -> HeaderView {
        HeaderView {
            path: self.path@,
            directory: self.directory,
            file: self.file,
            mode: self.mode,
            offset: self.offset,
            size: self.size,
        }
    }
}

/// The mathematical form of one header, or of the reason why there is none.
pub open spec fn header_view(header: Result<Header, String>) -> Result<HeaderView, Seq<char>> {
    match header {
        Ok(header) => Ok(header@),
        Err(reason) => Err(reason@),
    }
}

/// The mathematical form of the headers of a tarball.
pub open spec fn header_views(list: Seq<Result<Header, String>>) -> Seq<
    Result<HeaderView, Seq<char>>,
> {
    list.map_values(|header: Result<Header, String>| header_view(header))
}

/// The headers of a tarball, and how many bytes behind them were not looked at.
#[derive(Debug)]
pub struct Index {
    pub headers: Vec<Result<Header, String>>,
    pub rest: usize,
}

/// The mathematical form of [`Index`].
pub struct IndexView {
    pub headers: Seq<Result<HeaderView, Seq<char>>>,
    pub rest: nat,
}

impl View for Index {
    type V = IndexView;

    open spec fn view(&self) -> IndexView {
        IndexView { headers: header_views(self.headers@), rest: self.rest as nat }
    }
}

/// The entries that `tar::Archive::entries` finds in a byte string, and how many
/// bytes of it are left when it has found the last one.
pub uninterp spec fn tar_index(data: Seq<u8>) -> IndexView;

/// Calls `tar::Archive::entries`, which does not fail on an archive of which
/// nothing was read, and hands out what the header of each entry says, with its
/// `size` and `raw_file_position`. An entry that cannot be read is the last one.
/// `tar::Archive::into_inner` then tells what was not looked at.
///
/// The data has to be calm: `tar` adds the blocks in which the header of a sparse
/// file goes on to where the next entry begins without a check for overflow. All
/// its other sums are checked, or count bytes that it has read.
#[verifier::external_body]
fn read_index(data: &[u8]) -> (index: Index)
    requires
        is_calm(data@),
    ensures
        index@ == tar_index(data@),
{
    let told = |error: std::io::Error| error.to_string();
    let mut archive = tar::Archive::new(data);
    let headers = archive.entries().into_iter().flatten().map(|entry| {
        let entry = entry.map_err(told)?;
        let (path, mode) = (entry.path_bytes().into_owned(), entry.header().mode().ok());
        let (kind, size) = (entry.header().entry_type(), entry.size());
        let (directory, file, offset) = (kind.is_dir(), kind.is_file(), entry.raw_file_position());
        Ok(Header { path, directory, file, mode, offset, size })
    }).collect();
    Index { headers, rest: archive.into_inner().len() }
}

/// An entry of an archive.
#[derive(Debug)]
pub struct Member {
    pub path: Vec<u8>,
    pub directory: bool,
    pub file: bool,
    /// The mode, where the header holds a readable one.
    pub mode: Option<u32>,
    /// The contents, or what came of them.
    pub contents: Vec<u8>,
    /// Why the contents break off, where they do for damage to what is packed.
    pub damage: Option<String>,
}

/// The mathematical form of [`Member`].
pub struct MemberView {
    pub path: Seq<u8>,
    pub directory: bool,
    pub file: bool,
    pub mode: Option<u32>,
    pub contents: Seq<u8>,
    pub damage: Option<Seq<char>>,
}

impl View for Member {
    type V = MemberView;

    open spec fn view(&self) -> MemberView {
        MemberView {
            path: self.path@,
            directory: self.directory,
            file: self.file,
            mode: self.mode,
            contents: self.contents@,
            damage: optional_text(self.damage),
        }
    }
}

/// The mathematical form of one entry, or of the reason why there is none.
pub open spec fn entry_view(entry: Result<Member, String>) -> Result<MemberView, Seq<char>> {
    match entry {
        Ok(member) => Ok(member@),
        Err(reason) => Err(reason@),
    }
}

/// The mathematical form of the entries of an archive.
pub open spec fn entry_views(list: Seq<Result<Member, String>>) -> Seq<
    Result<MemberView, Seq<char>>,
> {
    list.map_values(|entry: Result<Member, String>| entry_view(entry))
}

/// The lesser of two numbers.
pub open spec fn lesser(left: int, right: int) -> int {
    if left <= right {
        left
    } else {
        right
    }
}

/// The contents of an entry: as many bytes from their offset on as the header says,
/// as far as there are so many. Only a directory or a file has its contents in one
/// piece.
pub open spec fn contents_of(header: HeaderView, bytes: Seq<u8>) -> Seq<u8> {
    if header.directory || header.file {
        bytes.subrange(
            lesser(header.offset as int, bytes.len() as int),
            lesser(header.offset + header.size, bytes.len() as int),
        )
    } else {
        Seq::empty()
    }
}

/// An entry with its contents.
pub open spec fn member_of(header: HeaderView, whole: UnpackedView) -> MemberView {
    MemberView {
        path: header.path,
        directory: header.directory,
        file: header.file,
        mode: header.mode,
        contents: contents_of(header, whole.bytes),
        damage: if header.offset + header.size > whole.bytes.len() {
            whole.damage
        } else {
            None
        },
    }
}

/// Whether the search for entries goes on behind the last of the bytes: whether it
/// would look at one more.
pub open spec fn goes_on(bytes: Seq<u8>) -> bool {
    tar_index(defused(bytes.push(0))).rest == 0
}

/// The entries of an archive. Where what is packed breaks off and the search for
/// them goes on behind that, the last one is the damage.
pub open spec fn entries_of(whole: UnpackedView, index: IndexView, onward: bool) -> Seq<
    Result<MemberView, Seq<char>>,
> {
    let found = index.headers.map_values(
        |header: Result<HeaderView, Seq<char>>|
            match header {
                Ok(header) => Ok::<MemberView, Seq<char>>(member_of(header, whole)),
                Err(reason) => Err::<MemberView, Seq<char>>(reason),
            },
    );
    if whole.damage is Some && onward {
        let sound = if found.len() > 0 && found.last() is Err {
            found.drop_last()
        } else {
            found
        };
        sound.push(Err(whole.damage->0))
    } else {
        found
    }
}

/// The entries of an archive of a kind.
pub open spec fn archive_entries(kind: ArchiveKind, data: Seq<u8>) -> Seq<
    Result<MemberView, Seq<char>>,
> {
    let whole = unpacked(kind, data);
    entries_of(whole, tar_index(defused(whole.bytes)), goes_on(whole.bytes))
}

fn member(header: &Header, whole: &Unpacked) -> (member: Member)
    ensures
        member@ == member_of(header@, whole@),
{
    let length: u128 = whole.bytes.len() as u128;
    let end: u128 = header.offset as u128 + header.size as u128;
    let cut = end > length;
    let contents = if header.directory || header.file {
        let from: usize = if header.offset as u128 <= length {
            header.offset as usize
        } else {
            whole.bytes.len()
        };
        let to: usize = if cut {
            whole.bytes.len()
        } else {
            end as usize
        };
        vstd::slice::slice_to_vec(vstd::slice::slice_subrange(whole.bytes.as_slice(), from, to))
    } else {
        Vec::new()
    };
    let damage = match &whole.damage {
        Some(reason) => if cut {
            Some(reason.clone())
        } else {
            None
        },
        None => None,
    };
    assert(contents@ =~= contents_of(header@, whole@.bytes));
    Member {
        path: vstd::slice::slice_to_vec(header.path.as_slice()),
        directory: header.directory,
        file: header.file,
        mode: header.mode,
        contents,
        damage,
    }
}

/// Whether the search for entries goes on behind the last of the bytes.
pub fn wants_more(bytes: &[u8]) -> (more: bool)
    ensures
        more == goes_on(bytes@),
{
    let mut longer = vstd::slice::slice_to_vec(bytes);
    longer.push(0);
    let calm = defuse(longer.as_slice());
    read_index(calm.as_slice()).rest == 0
}

/// The entries of an archive, given what was unpacked of it, the headers that were
/// found in that, and whether the search for them goes on behind it.
pub fn join_entries(whole: &Unpacked, index: &Index, onward: bool) -> (entries: Vec<
    Result<Member, String>,
>)
    ensures
        entry_views(entries@) == entries_of(whole@, index@, onward),
{
    let ghost found = index@.headers.map_values(
        |header: Result<HeaderView, Seq<char>>|
            match header {
                Ok(header) => Ok::<MemberView, Seq<char>>(member_of(header, whole@)),
                Err(reason) => Err::<MemberView, Seq<char>>(reason),
            },
    );
    let mut entries: Vec<Result<Member, String>> = Vec::new();
    let mut i: usize = 0;
    while i < index.headers.len()
        invariant
            i <= index.headers.len(),
            found == index@.headers.map_values(
                |header: Result<HeaderView, Seq<char>>|
                    match header {
                        Ok(header) => Ok::<MemberView, Seq<char>>(member_of(header, whole@)),
                        Err(reason) => Err::<MemberView, Seq<char>>(reason),
                    },
            ),
            entry_views(entries@) == found.take(i as int),
        decreases index.headers.len() - i,
    {
        let ghost before = entry_views(entries@);
        assert(index@.headers[i as int] == header_view(index.headers@[i as int]));
        let entry = match &index.headers[i] {
            Ok(header) => Ok(member(header, whole)),
            Err(reason) => Err(reason.clone()),
        };
        entries.push(entry);
        assert(entry_views(entries@) =~= before.push(found[i as int]));
        assert(entry_views(entries@) =~= found.take(i + 1));
        i += 1;
    }
    assert(entry_views(entries@) =~= found);
    match &whole.damage {
        Some(reason) => {
            if onward {
                let failed = match entries.last() {
                    Some(Err(_)) => true,
                    _ => false,
                };
                assert(failed == (found.len() > 0 && found.last() is Err)) by {
                    if found.len() > 0 {
                        assert(found.last() == entry_view(entries@[entries@.len() - 1]));
                    }
                }
                if failed {
                    entries.pop();
                    assert(entry_views(entries@) =~= found.drop_last());
                }
                let ghost sound = entry_views(entries@);
                entries.push(Err(reason.clone()));
                assert(entry_views(entries@) =~= sound.push(Err(reason@)));
            }
        },
        None => {},
    }
    entries
}

/// Reads the entries of an archive.
pub fn archive_reader(data: &[u8], kind: ArchiveKind) -> (entries: Vec<Result<Member, String>>)
    ensures
        entry_views(entries@) == archive_entries(kind, data@),
{
    let whole = unpack(data, kind);
    let calm = defuse(whole.bytes.as_slice());
    let index = read_index(calm.as_slice());
    let onward = whole.damage.is_some() && wants_more(whole.bytes.as_slice());
    join_entries(&whole, &index, onward)
}

/// What is unpacked of an archive is what the decoder of its kind makes of it, and a plain
/// one is taken as it is.
pub proof fn archives_are_unpacked_by_kind(data: Seq<u8>)
    ensures
        unpacked(ArchiveKind::Tar, data) == (UnpackedView { bytes: data, damage: None }),
        unpacked(ArchiveKind::TarGzip, data) == gzip_unpacked(data),
        unpacked(ArchiveKind::TarZstd, data) == zstd_unpacked(data),
        forall|kind: ArchiveKind| #[trigger]
            archive_entries(kind, data) == entries_of(
                unpacked(kind, data),
                tar_index(defused(unpacked(kind, data).bytes)),
                tar_index(defused(unpacked(kind, data).bytes.push(0))).rest == 0,
            ),
{
}

/// Every header becomes an entry, in order, with all that the header says, and with the
/// bytes from the offset that it gives on, as many as it says, as far as they came. Only
/// where what is packed breaks off and the search for headers goes on behind that, the
/// last entry is the damage, in the place of a header that could not be read there.
pub proof fn headers_become_entries(
    whole: UnpackedView,
    index: IndexView,
    onward: bool,
    place: int,
)
    requires
        0 <= place < index.headers.len(),
    ensures
        ({
            let entries = entries_of(whole, index, onward);
            let told = whole.damage is Some && onward;
            let count = index.headers.len();
            &&& !told ==> entries.len() == count
            &&& told ==> entries.len() > 0 && entries.last() == Err::<MemberView, Seq<char>>(
                whole.damage->0,
            )
            &&& told && index.headers.last() is Ok ==> entries.len() == count + 1
            &&& told && index.headers.last() is Err ==> entries.len() == count
            &&& !(told && place == count - 1 && index.headers[place] is Err)
                ==> match index.headers[place] {
                Err(reason) => entries[place] == Err::<MemberView, Seq<char>>(reason),
                Ok(header) => {
                    let end = header.offset + header.size;
                    let length = whole.bytes.len() as int;
                    let member = entries[place]->Ok_0;
                    &&& entries[place] is Ok
                    &&& member.path == header.path
                    &&& member.directory == header.directory
                    &&& member.file == header.file
                    &&& member.mode == header.mode
                    &&& member.damage == (if end > length {
                        whole.damage
                    } else {
                        None
                    })
                    &&& (header.directory || header.file) && end <= length ==> member.contents
                        == whole.bytes.subrange(header.offset as int, end)
                    &&& (header.directory || header.file) && header.offset <= length < end
                        ==> member.contents == whole.bytes.skip(header.offset as int)
                    &&& (header.directory || header.file) && length < header.offset
                        ==> member.contents == Seq::<u8>::empty()
                    &&& !header.directory && !header.file ==> member.contents
                        == Seq::<u8>::empty()
                },
            }
        }),
{
    let length = whole.bytes.len() as int;
    if let Ok(header) = index.headers[place] {
        assert(whole.bytes.subrange(length, length) =~= Seq::<u8>::empty());
        if header.offset <= length {
            assert(whole.bytes.subrange(header.offset as int, length) =~= whole.bytes.skip(
                header.offset as int,
            ));
        }
    }
}

/// Nothing of a tarball is changed but the mark of a header in the format of GNU that it
/// goes on in the next block, and that only in the header of a sparse file.
pub proof fn only_marks_of_sparse_files_are_changed(data: Seq<u8>, place: int)
    requires
        0 <= place < data.len(),
        defused(data)[place] != data[place],
    ensures
        defused(data).len() == data.len(),
        ({
            let start = place - 482;
            &&& start % 512 == 0
            &&& start >= 0
            &&& data[place] == 1
            &&& defused(data)[place] == 0
            &&& data[start + 156] == 83
            &&& data.subrange(start + 257, start + 265) == seq![
                117u8,
                115u8,
                116u8,
                97u8,
                114u8,
                32u8,
                32u8,
                0u8,
            ]
        }),
{
    let block = place / 512;
    let start = block * 512;
    assert(place % 512 == 482 && is_overrun(data, block));
    assert(place == start + 482) by (nonlinear_arith)
        requires
            place % 512 == 482,
            block == place / 512,
            start == block * 512,
    ;
    assert((place - 482) % 512 == 0) by (nonlinear_arith)
        requires
            place == block * 512 + 482,
    ;
    assert(data.subrange(start + 257, start + 265) =~= seq![
        117u8,
        115u8,
        116u8,
        97u8,
        114u8,
        32u8,
        32u8,
        0u8,
    ]);
}

/// The mathematical form of headers and entries has what each of them says, in their
/// places.
pub proof fn entries_keep_their_order(
    headers: Seq<Result<Header, String>>,
    entries: Seq<Result<Member, String>>,
    place: int,
)
    ensures
        header_views(headers).len() == headers.len(),
        0 <= place < headers.len() ==> match headers[place] {
            Err(reason) => header_views(headers)[place] == Err::<HeaderView, Seq<char>>(reason@),
            Ok(header) => header_views(headers)[place] == Ok::<HeaderView, Seq<char>>(
                HeaderView {
                    path: header.path@,
                    directory: header.directory,
                    file: header.file,
                    mode: header.mode,
                    offset: header.offset,
                    size: header.size,
                },
            ),
        },
        entry_views(entries).len() == entries.len(),
        0 <= place < entries.len() ==> match entries[place] {
            Err(reason) => entry_views(entries)[place] == Err::<MemberView, Seq<char>>(reason@),
            Ok(member) => {
                let view = entry_views(entries)[place]->Ok_0;
                &&& entry_views(entries)[place] is Ok
                &&& view.path == member.path@
                &&& view.directory == member.directory
                &&& view.file == member.file
                &&& view.mode == member.mode
                &&& view.contents == member.contents@
                &&& view.damage is Some <==> member.damage is Some
                &&& member.damage is Some ==> view.damage->0 == member.damage->0@
            },
        },
{
}

} // verus!
