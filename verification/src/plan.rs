//! Plans: what is to be downloaded, and what is to be made of it.

use vstd::prelude::*;

use crate::error::{Error, ErrorView};
use crate::path::{validate_file_name, validate_relative_path};

verus! {

use crate::path::{file_name_error, relative_path_error};
use crate::text::optional_text;
use vstd::utf8::{
    encode_utf8,
    encode_utf8_decode_utf8,
    is_ascii_chars,
    is_ascii_chars_encode_utf8,
};

/// How an archive is packed.
#[derive(Debug, Clone, Copy, PartialEq, Eq, Structural)]
pub enum ArchiveKind {
    Tar,
    TarGzip,
    TarZstd,
}

/// What is made of a download.
#[derive(Debug)]
pub enum PlanItem {
    /// The entries of an archive, without their first `strip` steps, go below a
    /// directory.
    UnpackDir { kind: ArchiveKind, strip: u32, to: Vec<u8> },
    /// One file of an archive goes to a place.
    UnpackFile { kind: ArchiveKind, from: Vec<u8>, to: Vec<u8> },
    /// The download goes to a place.
    InstallFile { to: Vec<u8> },
    /// The download becomes an executable.
    InstallBin { name: String },
}

/// The mathematical form of [`PlanItem`].
pub enum PlanItemView {
    UnpackDir { kind: ArchiveKind, strip: u32, to: Seq<u8> },
    UnpackFile { kind: ArchiveKind, from: Seq<u8>, to: Seq<u8> },
    InstallFile { to: Seq<u8> },
    InstallBin { name: Seq<char> },
}

impl View for PlanItem {
    type V = PlanItemView;

    open spec fn view(&self) -> PlanItemView {
        match self {
            PlanItem::UnpackDir { kind, strip, to } => PlanItemView::UnpackDir {
                kind: *kind,
                strip: *strip,
                to: to@,
            },
            PlanItem::UnpackFile { kind, from, to } => PlanItemView::UnpackFile {
                kind: *kind,
                from: from@,
                to: to@,
            },
            PlanItem::InstallFile { to } => PlanItemView::InstallFile { to: to@ },
            PlanItem::InstallBin { name } => PlanItemView::InstallBin { name: name@ },
        }
    }
}

/// A download and what is made of it.
#[derive(Debug)]
pub struct Item {
    pub key: String,
    pub url: String,
    pub size: Option<u64>,
    pub digest: Option<String>,
    pub action: PlanItem,
}

/// The mathematical form of [`Item`].
pub struct ItemView {
    pub key: Seq<char>,
    pub url: Seq<char>,
    pub size: Option<u64>,
    pub digest: Option<Seq<char>>,
    pub action: PlanItemView,
}

impl View for Item {
    type V = ItemView;

    open spec fn view(&self) -> ItemView {
        ItemView {
            key: self.key@,
            url: self.url@,
            size: self.size,
            digest: optional_text(self.digest),
            action: self.action@,
        }
    }
}

/// The mathematical form of a list of items.
pub open spec fn item_views(items: Seq<Item>) -> Seq<ItemView> {
    items.map_values(|item: Item| item@)
}

/// What an upper system wants to be installed.
#[derive(Debug)]
pub struct Plan {
    pub version: u32,
    pub key: String,
    pub items: Vec<Item>,
}

/// The mathematical form of [`Plan`].
pub struct PlanView {
    pub version: u32,
    pub key: Seq<char>,
    pub items: Seq<ItemView>,
}

impl View for Plan {
    type V = PlanView;

    open spec fn view(&self) -> PlanView {
        PlanView { version: self.version, key: self.key@, items: item_views(self.items@) }
    }
}

/// What `url::Url::parse` makes of a text: the scheme of the URL, or the reason
/// why it is none.
pub uninterp spec fn url_scheme(url: Seq<char>) -> Result<Seq<char>, Seq<char>>;

/// Calls `url::Url::parse` and, where that succeeds, `scheme` of the URL.
#[verifier::external_body]
pub(crate) fn parse_scheme(url: &str) -> (scheme: Result<String, String>)
    ensures
        match scheme {
            Ok(scheme) => url_scheme(url@) == Ok::<Seq<char>, Seq<char>>(scheme@),
            Err(reason) => url_scheme(url@) == Err::<Seq<char>, Seq<char>>(reason@),
        },
{
    match url::Url::parse(url) {
        Ok(url) => Ok(url.scheme().to_owned()),
        Err(error) => Err(error.to_string()),
    }
}

/// Whether downloads can come from URLs of a scheme.
pub open spec fn supported_scheme(scheme: Seq<char>) -> bool {
    scheme == "http"@ || scheme == "https"@ || scheme == "file"@
}

/// What is wrong with a download URL, if anything is, given what the URL parser
/// said of it.
pub open spec fn scheme_error(
    url: Seq<char>,
    parsed: Result<Seq<char>, Seq<char>>,
) -> Option<ErrorView> {
    match parsed {
        Err(reason) => Some(ErrorView::InvalidUrl { url, reason }),
        Ok(scheme) => if supported_scheme(scheme) {
            None
        } else {
            Some(ErrorView::UnsupportedScheme { scheme })
        },
    }
}

/// What a digest starts with.
pub open spec fn digest_prefix() -> Seq<char> {
    "sha256:"@
}

/// Whether a byte is a lowercase hexadecimal digit.
pub open spec fn is_hex_byte(byte: u8) -> bool {
    48 <= byte <= 57 || 97 <= byte <= 102
}

/// What is wrong with a digest, if anything is. Behind the prefix stand 64 bytes
/// of lowercase hexadecimal.
pub open spec fn digest_error(digest: Seq<char>) -> Option<ErrorView> {
    if !digest_prefix().is_prefix_of(digest) {
        Some(ErrorView::DigestAlgorithm)
    } else {
        let value = encode_utf8(digest.skip(digest_prefix().len() as int));
        if value.len() != 64 {
            Some(ErrorView::DigestLength)
        } else if exists|i: int| 0 <= i < value.len() && !is_hex_byte(#[trigger] value[i]) {
            Some(ErrorView::DigestAlphabet)
        } else {
            None
        }
    }
}

/// The error that a path error is.
pub open spec fn path_fault(path: Seq<u8>, allow_current: bool) -> Option<ErrorView> {
    match relative_path_error(path, allow_current) {
        Some(cause) => Some(ErrorView::Path { cause }),
        None => None,
    }
}

/// What is wrong with an action, if anything is.
pub open spec fn action_error(action: PlanItemView) -> Option<ErrorView> {
    match action {
        PlanItemView::UnpackDir { to, .. } => path_fault(to, true),
        PlanItemView::UnpackFile { from, to, .. } => if path_fault(from, false) is Some {
            path_fault(from, false)
        } else {
            path_fault(to, false)
        },
        PlanItemView::InstallFile { to } => path_fault(to, false),
        PlanItemView::InstallBin { name } => file_name_error(name),
    }
}

/// What is wrong with an item, if anything is, given what the URL parser said of
/// its URL.
pub open spec fn item_error_given(
    item: ItemView,
    parsed: Result<Seq<char>, Seq<char>>,
) -> Option<ErrorView> {
    if item.key.len() == 0 {
        Some(ErrorView::EmptyDownloadKey)
    } else if scheme_error(item.url, parsed) is Some {
        scheme_error(item.url, parsed)
    } else if item.digest is Some && digest_error(item.digest->0) is Some {
        digest_error(item.digest->0)
    } else {
        action_error(item.action)
    }
}

/// What is wrong with an item, if anything is.
pub open spec fn item_error(item: ItemView) -> Option<ErrorView> {
    item_error_given(item, url_scheme(item.url))
}

/// The first error among those of a list of items.
pub open spec fn items_error(items: Seq<ItemView>) -> Option<ErrorView>
    decreases items.len(),
{
    if items.len() == 0 {
        None
    } else if items_error(items.drop_last()) is Some {
        items_error(items.drop_last())
    } else {
        item_error(items.last())
    }
}

/// What is wrong with a plan, if anything is.
pub open spec fn plan_error(plan: PlanView) -> Option<ErrorView> {
    if plan.version != 1 {
        Some(ErrorView::UnsupportedVersion { version: plan.version })
    } else if plan.key.len() == 0 {
        Some(ErrorView::EmptyPlanKey)
    } else {
        items_error(plan.items)
    }
}

/// Calls `str::strip_prefix` with a text: what stands behind the prefix, where
/// the text starts with it.
#[verifier::external_body]
fn strip_prefix<'a>(text: &'a str, prefix: &str) -> (rest: Option<&'a str>)
    ensures
        match rest {
            Some(rest) => text@ == prefix@ + rest@,
            None => !prefix@.is_prefix_of(text@),
        },
{
    text.strip_prefix(prefix)
}

/// Accepts `sha256:` with 64 lowercase hexadecimal digits behind it.
pub fn validate_digest(digest: &str) -> (result: Result<(), Error>)
    ensures
        match result {
            Ok(()) => digest_error(digest@) is None,
            Err(error) => digest_error(digest@) == Some(error@),
        },
{
    let value = match strip_prefix(digest, "sha256:") {
        Some(value) => value,
        None => {
            return Err(Error::DigestAlgorithm);
        },
    };
    proof {
        assert(digest@.skip(digest_prefix().len() as int) =~= value@);
        assert(digest_prefix().is_prefix_of(digest@));
    }
    let bytes = value.as_bytes();
    if bytes.len() != 64 {
        return Err(Error::DigestLength);
    }
    let mut i: usize = 0;
    while i < bytes.len()
        invariant
            i <= bytes.len(),
            bytes.len() == 64,
            bytes@ == encode_utf8(digest@.skip(digest_prefix().len() as int)),
            digest_prefix().is_prefix_of(digest@),
            forall|k: int| 0 <= k < i ==> is_hex_byte(#[trigger] bytes@[k]),
        decreases bytes.len() - i,
    {
        let byte: u8 = bytes[i];
        if !((48 <= byte && byte <= 57) || (97 <= byte && byte <= 102)) {
            assert(!is_hex_byte(bytes@[i as int]));
            return Err(Error::DigestAlphabet);
        }
        i += 1;
    }
    Ok(())
}

fn checked_path(path: &[u8], allow_current: bool) -> (result: Result<(), Error>)
    ensures
        match result {
            Ok(()) => path_fault(path@, allow_current) is None,
            Err(error) => path_fault(path@, allow_current) == Some(error@),
        },
{
    match validate_relative_path(path, allow_current) {
        Ok(()) => Ok(()),
        Err(cause) => Err(Error::Path { cause }),
    }
}

impl PlanItem {
    /// Accepts an action whose paths stay below the place they start from.
    pub fn validate(&self) -> (result: Result<(), Error>)
        ensures
            match result {
                Ok(()) => action_error(self@) is None,
                Err(error) => action_error(self@) == Some(error@),
            },
    {
        match self {
            PlanItem::UnpackDir { to, .. } => checked_path(to.as_slice(), true),
            PlanItem::UnpackFile { from, to, .. } => {
                match checked_path(from.as_slice(), false) {
                    Ok(()) => checked_path(to.as_slice(), false),
                    Err(error) => Err(error),
                }
            },
            PlanItem::InstallFile { to } => checked_path(to.as_slice(), false),
            PlanItem::InstallBin { name } => validate_file_name(name),
        }
    }
}

impl Item {
    /// Accepts an item, given the scheme of its URL or the reason why that does
    /// not parse.
    pub fn validate_parsed(&self, parsed: Result<String, String>) -> (result: Result<(), Error>)
        ensures
            match result {
                Ok(()) => item_error_given(self@, parsed_url_view(parsed)) is None,
                Err(error) => item_error_given(self@, parsed_url_view(parsed)) == Some(error@),
            },
    {
        if self.key.as_str().is_empty() {
            return Err(Error::EmptyDownloadKey);
        }
        match parsed {
            Err(reason) => {
                return Err(Error::InvalidUrl { url: self.url.clone(), reason });
            },
            Ok(scheme) => {
                let supported = scheme == "http".to_owned() || scheme == "https".to_owned()
                    || scheme == "file".to_owned();
                if !supported {
                    return Err(Error::UnsupportedScheme { scheme });
                }
            },
        }
        match &self.digest {
            Some(digest) => {
                match validate_digest(digest.as_str()) {
                    Ok(()) => {},
                    Err(error) => {
                        return Err(error);
                    },
                }
            },
            None => {},
        }
        self.action.validate()
    }

    /// Accepts an item with a key, a URL that downloads can come from, a digest
    /// that can be checked, where there is one, and a safe action.
    pub fn validate(&self) -> (result: Result<(), Error>)
        ensures
            match result {
                Ok(()) => item_error(self@) is None,
                Err(error) => item_error(self@) == Some(error@),
            },
    {
        self.validate_parsed(parse_scheme(self.url.as_str()))
    }
}

/// The mathematical form of what the URL parser said.
pub open spec fn parsed_url_view(parsed: Result<String, String>) -> Result<Seq<char>, Seq<char>> {
    match parsed {
        Ok(scheme) => Ok(scheme@),
        Err(reason) => Err(reason@),
    }
}

/// The download keys of a list of items, in order.
pub open spec fn item_keys(items: Seq<ItemView>) -> Seq<Seq<char>> {
    items.map_values(|item: ItemView| item.key)
}

impl Plan {
    /// Accepts a plan of version 1 that has a key and whose items are acceptable;
    /// otherwise tells the first thing that is wrong.
    pub fn validate(&self) -> (result: Result<(), Error>)
        ensures
            match result {
                Ok(()) => plan_error(self@) is None,
                Err(error) => plan_error(self@) == Some(error@),
            },
    {
        if self.version != 1 {
            return Err(Error::UnsupportedVersion { version: self.version });
        }
        if self.key.as_str().is_empty() {
            return Err(Error::EmptyPlanKey);
        }
        let ghost items = item_views(self.items@);
        let mut i: usize = 0;
        assert(items_error(items.take(0)) is None);
        while i < self.items.len()
            invariant
                i <= self.items.len(),
                items == item_views(self.items@),
                self.version == 1,
                self.key@.len() > 0,
                items_error(items.take(i as int)) is None,
            decreases self.items.len() - i,
        {
            let checked = self.items[i].validate();
            proof {
                assert(items.take(i + 1).drop_last() == items.take(i as int));
                assert(items.take(i + 1).last() == self.items@[i as int]@);
            }
            match checked {
                Ok(()) => {},
                Err(error) => {
                    proof {
                        lemma_first_error(items, i + 1);
                    }
                    return Err(error);
                },
            }
            i += 1;
        }
        assert(items.take(i as int) == items);
        Ok(())
    }

    /// The download keys of the items, in order.
    pub fn download_keys(&self) -> (keys: Vec<&str>)
        ensures
            keys@.map_values(|key: &str| key@) == item_keys(self@.items),
    {
        let mut keys: Vec<&str> = Vec::new();
        let mut i: usize = 0;
        while i < self.items.len()
            invariant
                i <= self.items.len(),
                keys@.len() == i,
                forall|k: int| 0 <= k < i ==> (#[trigger] keys@[k])@ == self.items@[k].key@,
            decreases self.items.len() - i,
        {
            keys.push(self.items[i].key.as_str());
            i += 1;
        }
        assert(keys@.map_values(|key: &str| key@) =~= item_keys(self@.items));
        keys
    }
}

/// A plan file: the plan, and what else an upper system keeps in it.
#[derive(Debug)]
pub struct PlanEnvelope {
    pub imos: Plan,
    pub extensions: serde_json::Map<String, serde_json::Value>,
}

/// What came of loading a plan file.
#[derive(Debug)]
pub enum LoadedPlan {
    /// The file could not be read.
    Unreadable { reason: String },
    /// The file holds no plan.
    Malformed { reason: String },
    /// The file holds a plan.
    Parsed { envelope: PlanEnvelope },
}

/// What is wrong with a loaded plan file, if anything is.
pub open spec fn loaded_plan_error(path: Seq<u8>, loaded: LoadedPlan) -> Option<ErrorView> {
    match loaded {
        LoadedPlan::Unreadable { reason } => Some(ErrorView::ReadPlan { path, reason: reason@ }),
        LoadedPlan::Malformed { reason } => Some(ErrorView::ParsePlan { path, reason: reason@ }),
        LoadedPlan::Parsed { envelope } => plan_error(envelope.imos@),
    }
}

impl PlanEnvelope {
    /// Accepts a loaded plan file that holds an acceptable plan, and hands it
    /// out as it was loaded.
    pub fn read(path: &[u8], loaded: LoadedPlan) -> (result: Result<PlanEnvelope, Error>)
        ensures
            match result {
                Ok(envelope) => loaded_plan_error(path@, loaded) is None && loaded == (
                LoadedPlan::Parsed { envelope }),
                Err(error) => loaded_plan_error(path@, loaded) == Some(error@),
            },
    {
        match loaded {
            LoadedPlan::Unreadable { reason } => Err(
                Error::ReadPlan { path: vstd::slice::slice_to_vec(path), reason },
            ),
            LoadedPlan::Malformed { reason } => Err(
                Error::ParsePlan { path: vstd::slice::slice_to_vec(path), reason },
            ),
            LoadedPlan::Parsed { envelope } => {
                match envelope.imos.validate() {
                    Ok(()) => Ok(envelope),
                    Err(error) => Err(error),
                }
            },
        }
    }
}

/// Where an archive goes when its item does not say: the installation itself.
pub fn default_current_dir() -> (path: Vec<u8>)
    ensures
        path@ == crate::path::dot(),
{
    let path: Vec<u8> = vec![46];
    assert(path@ =~= crate::path::dot());
    path
}

/// An acceptable plan has acceptable items, every one of them.
pub proof fn accepted_plan_has_accepted_items(plan: PlanView, index: int)
    requires
        plan_error(plan) is None,
        0 <= index < plan.items.len(),
    ensures
        item_error(plan.items[index]) is None,
{
    if item_error(plan.items[index]) is Some {
        let items = plan.items;
        assert(items.take(index + 1).drop_last() == items.take(index));
        assert(items_error(items.take(index + 1)) is Some);
        lemma_first_error(items, index + 1);
    }
}

/// An error among the first items is the error of all of them.
proof fn lemma_first_error(items: Seq<ItemView>, count: int)
    requires
        0 <= count <= items.len(),
        items_error(items.take(count)) is Some,
    ensures
        items_error(items) == items_error(items.take(count)),
    decreases items.len() - count,
{
    if count == items.len() {
        assert(items.take(count) == items);
    } else {
        assert(items.take(count + 1).drop_last() == items.take(count));
        lemma_first_error(items, count + 1);
    }
}

proof fn lemma_ascii_bytes(text: Seq<char>)
    requires
        forall|i: int| 0 <= i < encode_utf8(text).len() ==> #[trigger] encode_utf8(text)[i] < 128,
    ensures
        text.len() == encode_utf8(text).len(),
        forall|i: int|
            0 <= i < text.len() ==> #[trigger] text[i] == encode_utf8(text)[i] as char,
{
    let bytes = encode_utf8(text);
    let other = Seq::new(bytes.len(), |i: int| bytes[i] as char);
    assert forall|i: int| 0 <= i < other.len() implies '\0' <= #[trigger] other[i] <= '\u{7f}' by {
        assert(bytes[i] < 128);
    }
    assert(is_ascii_chars(other));
    is_ascii_chars_encode_utf8(other);
    assert forall|i: int| 0 <= i < bytes.len() implies encode_utf8(other)[i] == bytes[i] by {
        assert(other[i] as u8 == encode_utf8(other)[i]);
        assert(bytes[i] < 128);
    }
    assert(encode_utf8(other) =~= bytes);
    encode_utf8_decode_utf8(text);
    encode_utf8_decode_utf8(other);
    assert(text == other);
    assert forall|i: int| 0 <= i < text.len() implies #[trigger] text[i] == bytes[i] as char by {
        assert(other[i] == bytes[i] as char);
    }
}

/// A digest is acceptable exactly where it is `sha256:` with 64 digits of lowercase
/// hexadecimal behind it.
pub proof fn accepted_digests(digest: Seq<char>)
    ensures
        digest_error(digest) is None <==> exists|value: Seq<char>|
            digest == #[trigger] ("sha256:"@ + value) && value.len() == 64 && forall|i: int|
                0 <= i < 64 ==> '0' <= #[trigger] value[i] <= '9' || 'a' <= value[i] <= 'f',
        !"sha256:"@.is_prefix_of(digest) ==> digest_error(digest) == Some(
            ErrorView::DigestAlgorithm,
        ),
        "sha256:"@.is_prefix_of(digest) && encode_utf8(digest.skip(7)).len() != 64
            ==> digest_error(digest) == Some(ErrorView::DigestLength),
        "sha256:"@.is_prefix_of(digest) && encode_utf8(digest.skip(7)).len() == 64 && digest_error(
            digest,
        ) is Some ==> digest_error(digest) == Some(ErrorView::DigestAlphabet),
{
    reveal_strlit("sha256:");
    assert("sha256:"@.len() == 7);
    if digest_error(digest) is None {
        let value = digest.skip(7);
        let bytes = encode_utf8(value);
        assert forall|i: int| 0 <= i < bytes.len() implies #[trigger] bytes[i] < 128 by {
            assert(is_hex_byte(bytes[i]));
        }
        lemma_ascii_bytes(value);
        assert("sha256:"@ + value =~= digest);
        assert forall|i: int| 0 <= i < 64 implies '0' <= #[trigger] value[i] <= '9' || 'a' <= value[i] <= 'f' by {
            assert(is_hex_byte(bytes[i]));
        }
    }
    if exists|value: Seq<char>|
        digest == #[trigger] ("sha256:"@ + value) && value.len() == 64 && forall|i: int|
            0 <= i < 64 ==> '0' <= #[trigger] value[i] <= '9' || 'a' <= value[i] <= 'f' {
        let value = choose|value: Seq<char>|
            digest == #[trigger] ("sha256:"@ + value) && value.len() == 64 && forall|i: int|
                0 <= i < 64 ==> '0' <= #[trigger] value[i] <= '9' || 'a' <= value[i] <= 'f';
        assert(digest.skip(7) =~= value);
        assert forall|i: int| 0 <= i < value.len() implies '\0' <= #[trigger] value[i]
            <= '\u{7f}' by {
            assert('0' <= value[i] <= '9' || 'a' <= value[i] <= 'f');
        }
        assert(is_ascii_chars(value));
        is_ascii_chars_encode_utf8(value);
        let bytes = encode_utf8(value);
        assert forall|i: int| 0 <= i < bytes.len() implies is_hex_byte(#[trigger] bytes[i]) by {
            assert('0' <= value[i] <= '9' || 'a' <= value[i] <= 'f');
            assert(value[i] as u8 == bytes[i]);
        }
        assert(digest_prefix().is_prefix_of(digest));
    }
}

/// An action is acceptable exactly where its paths are: an archive may go to the current
/// directory, and nothing else may.
pub proof fn accepted_actions(action: PlanItemView)
    ensures
        match action {
            PlanItemView::UnpackDir { to, .. } => match relative_path_error(to, true) {
                None => action_error(action) is None,
                Some(cause) => action_error(action) == Some(ErrorView::Path { cause }),
            },
            PlanItemView::UnpackFile { from, to, .. } => match (
                relative_path_error(from, false),
                relative_path_error(to, false),
            ) {
                (Some(cause), _) => action_error(action) == Some(ErrorView::Path { cause }),
                (None, Some(cause)) => action_error(action) == Some(ErrorView::Path { cause }),
                (None, None) => action_error(action) is None,
            },
            PlanItemView::InstallFile { to } => match relative_path_error(to, false) {
                None => action_error(action) is None,
                Some(cause) => action_error(action) == Some(ErrorView::Path { cause }),
            },
            PlanItemView::InstallBin { name } => action_error(action) == file_name_error(name),
        },
{
}

/// An item is acceptable exactly where it has a key, a URL that parses and can be
/// downloaded from, a digest that can be checked, if any, and an acceptable action. Of
/// what is wrong, the first of these is told.
pub proof fn accepted_items(item: ItemView, parsed: Result<Seq<char>, Seq<char>>)
    ensures
        ({
            let error = item_error_given(item, parsed);
            let usable = parsed is Ok && (parsed->Ok_0 == "http"@ || parsed->Ok_0 == "https"@
                || parsed->Ok_0 == "file"@);
            let checkable = item.digest is Some ==> digest_error(item.digest->0) is None;
            &&& error is None <==> item.key.len() > 0 && usable && checkable && action_error(
                item.action,
            ) is None
            &&& item.key.len() == 0 ==> error == Some(ErrorView::EmptyDownloadKey)
            &&& item.key.len() > 0 ==> {
                &&& parsed is Err ==> error == Some(
                    ErrorView::InvalidUrl { url: item.url, reason: parsed->Err_0 },
                )
                &&& parsed is Ok && !usable ==> error == Some(
                    ErrorView::UnsupportedScheme { scheme: parsed->Ok_0 },
                )
                &&& usable && !checkable ==> error == digest_error(item.digest->0)
                &&& usable && checkable ==> error == action_error(item.action)
            }
        }),
{
}

proof fn lemma_items_error(items: Seq<ItemView>)
    ensures
        items_error(items) is None <==> forall|i: int|
            0 <= i < items.len() ==> item_error(#[trigger] items[i]) is None,
    decreases items.len(),
{
    if items.len() > 0 {
        let fewer = items.drop_last();
        lemma_items_error(fewer);
        assert(items[items.len() - 1] == items.last());
        if items_error(items) is None {
            assert forall|i: int| 0 <= i < items.len() implies item_error(
                #[trigger] items[i],
            ) is None by {
                if i < fewer.len() {
                    assert(fewer[i] == items[i]);
                }
            }
        }
        if forall|i: int| 0 <= i < items.len() ==> item_error(#[trigger] items[i]) is None {
            assert forall|i: int| 0 <= i < fewer.len() implies item_error(
                #[trigger] fewer[i],
            ) is None by {
                assert(fewer[i] == items[i]);
            }
        }
    }
}

/// A plan is acceptable exactly where it is of version 1, has a key, and all its items
/// are acceptable. Otherwise its version, its key, or the first item that is not
/// acceptable is told.
pub proof fn accepted_plans(plan: PlanView, index: int)
    ensures
        plan_error(plan) is None <==> plan.version == 1 && plan.key.len() > 0 && forall|i: int|
            0 <= i < plan.items.len() ==> item_error_given(
                #[trigger] plan.items[i],
                url_scheme(plan.items[i].url),
            ) is None,
        plan.version != 1 ==> plan_error(plan) == Some(
            ErrorView::UnsupportedVersion { version: plan.version },
        ),
        plan.version == 1 && plan.key.len() == 0 ==> plan_error(plan) == Some(
            ErrorView::EmptyPlanKey,
        ),
        plan.version == 1 && plan.key.len() > 0 && 0 <= index < plan.items.len() && (forall|i: int|
            0 <= i < index ==> item_error_given(
                #[trigger] plan.items[i],
                url_scheme(plan.items[i].url),
            ) is None) && item_error_given(
            plan.items[index],
            url_scheme(plan.items[index].url),
        ) is Some ==> plan_error(plan) == item_error_given(
            plan.items[index],
            url_scheme(plan.items[index].url),
        ),
{
    let items = plan.items;
    lemma_items_error(items);
    assert forall|i: int| 0 <= i < items.len() implies item_error(#[trigger] items[i])
        == item_error_given(items[i], url_scheme(items[i].url)) by {}
    if 0 <= index < items.len() && (forall|i: int|
        0 <= i < index ==> item_error_given(#[trigger] items[i], url_scheme(items[i].url)) is None)
        && item_error_given(items[index], url_scheme(items[index].url)) is Some {
        let some = items.take(index + 1);
        let fewer = items.take(index);
        assert(some.drop_last() == fewer);
        assert(some.last() == items[index]);
        assert forall|i: int| 0 <= i < fewer.len() implies item_error(#[trigger] fewer[i])
            is None by {
            assert(fewer[i] == items[i]);
        }
        lemma_items_error(fewer);
        assert(items_error(some) == item_error(items[index]));
        lemma_first_error(items, index + 1);
    }
}

/// A plan file is acceptable exactly where it can be read and holds an acceptable plan;
/// what is wrong is told with its path, or is what is wrong with the plan.
pub proof fn accepted_plan_files(path: Seq<u8>, loaded: LoadedPlan)
    ensures
        match loaded {
            LoadedPlan::Unreadable { reason } => loaded_plan_error(path, loaded) == Some(
                ErrorView::ReadPlan { path, reason: reason@ },
            ),
            LoadedPlan::Malformed { reason } => loaded_plan_error(path, loaded) == Some(
                ErrorView::ParsePlan { path, reason: reason@ },
            ),
            LoadedPlan::Parsed { envelope } => loaded_plan_error(path, loaded) == plan_error(
                envelope.imos@,
            ),
        },
{
}

/// The mathematical form of a plan has what each item says, in their places.
pub proof fn plans_keep_their_items(plan: Plan, index: int)
    ensures
        plan@.version == plan.version,
        plan@.key == plan.key@,
        plan@.items.len() == plan.items@.len(),
        0 <= index < plan.items@.len() ==> {
            let item = plan.items@[index];
            let view = plan@.items[index];
            &&& view.key == item.key@
            &&& view.url == item.url@
            &&& view.size == item.size
            &&& view.digest is Some <==> item.digest is Some
            &&& item.digest is Some ==> view.digest->0 == item.digest->0@
            &&& match item.action {
                PlanItem::UnpackDir { kind, strip, to } => view.action == (
                PlanItemView::UnpackDir { kind, strip, to: to@ }),
                PlanItem::UnpackFile { kind, from, to } => view.action == (
                PlanItemView::UnpackFile { kind, from: from@, to: to@ }),
                PlanItem::InstallFile { to } => view.action == (PlanItemView::InstallFile {
                    to: to@,
                }),
                PlanItem::InstallBin { name } => view.action == (PlanItemView::InstallBin {
                    name: name@,
                }),
            }
        },
        0 <= index < plan@.items.len() ==> item_keys(plan@.items)[index] == plan@.items[index].key,
        item_keys(plan@.items).len() == plan@.items.len(),
{
}

} // verus!
