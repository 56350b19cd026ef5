//! The store: where its objects are.

use vstd::prelude::*;

use crate::archive::{Step, StepView};
use crate::digest::key_name;
use crate::error::{Error, ErrorView};
use crate::path::join_path;

verus! {

use crate::archive::step_views;
use crate::digest::{hex_text, key_digest, lemma_hex_text_is_plain, sha256};
use crate::path::{
    is_below,
    path_components,
    path_join,
    paths_are_joined_with_one_slash,
    plain_name,
    plain_name_stays_below,
    ComponentView,
};
use crate::text::texts;
use vstd::utf8::{encode_utf8, is_ascii_chars, is_ascii_chars_encode_utf8};

/// The mode of the root of a store: nobody else looks into it.
pub const STORE_MODE: u32 = 0o700;

/// A store below a directory.
#[derive(Debug)]
pub struct Store {
    root: Vec<u8>,
}

impl View for Store {
    type V = Seq<u8>;

    /// The root of the store.
    closed spec fn view(&self) -> Seq<u8> {
        self.root@
    }
}

/// The directories of a store.
pub open spec fn store_directories() -> Seq<Seq<char>> {
    seq!["requests"@, "dl"@, "install"@, "locks/dl"@, "locks/install"@, "tmp"@]
}

/// A directory or a file right below the root of a store.
pub open spec fn store_place(root: Seq<u8>, name: Seq<char>) -> Seq<u8> {
    path_join(root, encode_utf8(name))
}

/// What is in a directory of a store.
pub open spec fn store_entry(root: Seq<u8>, directory: Seq<char>, name: Seq<char>) -> Seq<u8> {
    path_join(store_place(root, directory), encode_utf8(name))
}

/// Where the installation of a plan is.
pub open spec fn installation_path(root: Seq<u8>, plan_key: Seq<char>) -> Seq<u8> {
    store_entry(root, "install"@, key_digest(plan_key))
}

/// Where the download of a key is.
pub open spec fn download_path(root: Seq<u8>, key: Seq<char>) -> Seq<u8> {
    store_entry(root, "dl"@, key_digest(key))
}

/// What makes a store out of a directory.
pub open spec fn layout_steps(root: Seq<u8>) -> Seq<StepView> {
    seq![
        StepView::CreateTree { path: root },
        StepView::SetMode { path: root, mode: STORE_MODE },
    ] + store_directories().map_values(
        |name: Seq<char>| StepView::CreateTree { path: store_place(root, name) },
    )
}

/// How a failure of one of these steps is told.
pub open spec fn layout_failure(root: Seq<u8>, index: int, reason: Seq<char>) -> ErrorView {
    if index == 0 {
        ErrorView::CreateRoot { path: root, reason }
    } else if 2 <= index < 2 + store_directories().len() {
        ErrorView::CreateStoreDirectory { name: store_directories()[index - 2], reason }
    } else {
        ErrorView::Failed { reason }
    }
}

fn directory_names() -> (names: Vec<String>)
    ensures
        texts(names@) == store_directories(),
{
    let mut names: Vec<String> = Vec::new();
    names.push("requests".to_owned());
    names.push("dl".to_owned());
    names.push("install".to_owned());
    names.push("locks/dl".to_owned());
    names.push("locks/install".to_owned());
    names.push("tmp".to_owned());
    assert(texts(names@) =~= store_directories());
    names
}

impl Store {
    /// The store below a directory.
    pub fn open(root: Vec<u8>) -> (store: Store)
        ensures
            store@ == root@,
    {
        Store { root }
    }

    /// The root of the store.
    pub fn root(&self) -> (root: &[u8])
        ensures
            root@ == self@,
    {
        self.root.as_slice()
    }

    /// What makes a store out of the directory.
    pub fn layout(&self) -> (steps: Vec<Step>)
        ensures
            step_views(steps@) == layout_steps(self@),
    {
        let names = directory_names();
        let ghost places = store_directories().map_values(
            |name: Seq<char>| StepView::CreateTree { path: store_place(self@, name) },
        );
        let ghost opening = seq![
            StepView::CreateTree { path: self@ },
            StepView::SetMode { path: self@, mode: STORE_MODE },
        ];
        let mut steps: Vec<Step> = Vec::new();
        steps.push(Step::CreateTree { path: vstd::slice::slice_to_vec(self.root.as_slice()) });
        steps.push(
            Step::SetMode {
                path: vstd::slice::slice_to_vec(self.root.as_slice()),
                mode: STORE_MODE,
            },
        );
        let mut i: usize = 0;
        assert(step_views(steps@) =~= opening + places.take(0));
        while i < names.len()
            invariant
                i <= names.len(),
                texts(names@) == store_directories(),
                places == store_directories().map_values(
                    |name: Seq<char>| StepView::CreateTree { path: store_place(self@, name) },
                ),
                step_views(steps@) == opening + places.take(i as int),
            decreases names.len() - i,
        {
            let ghost before = step_views(steps@);
            assert(store_directories()[i as int] == names@[i as int]@);
            steps.push(Step::CreateTree { path: self.place(names[i].as_str()) });
            assert(step_views(steps@) =~= before.push(places[i as int]));
            assert(step_views(steps@) =~= opening + places.take(i + 1));
            i += 1;
        }
        assert(places.take(i as int) =~= places);
        steps
    }

    /// How a failure of a step of the layout is told.
    pub fn layout_error(&self, index: usize, reason: String) -> (error: Error)
        ensures
            error@ == layout_failure(self@, index as int, reason@),
    {
        let names = directory_names();
        if index == 0 {
            Error::CreateRoot { path: vstd::slice::slice_to_vec(self.root.as_slice()), reason }
        } else if 2 <= index && index - 2 < names.len() {
            assert(texts(names@)[index - 2] == names@[index - 2]@);
            Error::CreateStoreDirectory { name: names[index - 2].clone(), reason }
        } else {
            Error::Failed { reason }
        }
    }

    /// A directory or a file right below the root.
    fn place(&self, name: &str) -> (path: Vec<u8>)
        ensures
            path@ == store_place(self@, name@),
    {
        join_path(self.root.as_slice(), name.as_bytes())
    }

    /// What is in a directory of the store.
    fn entry(&self, directory: &str, name: &str) -> (path: Vec<u8>)
        ensures
            path@ == store_entry(self@, directory@, name@),
    {
        join_path(self.place(directory).as_slice(), name.as_bytes())
    }

    /// The directory of the requests.
    pub fn requests_path(&self) -> (path: Vec<u8>)
        ensures
            path@ == store_place(self@, "requests"@),
    {
        self.place("requests")
    }

    /// The directory of the installations.
    pub fn installs_path(&self) -> (path: Vec<u8>)
        ensures
            path@ == store_place(self@, "install"@),
    {
        self.place("install")
    }

    /// The directory of the downloads.
    pub fn downloads_path(&self) -> (path: Vec<u8>)
        ensures
            path@ == store_place(self@, "dl"@),
    {
        self.place("dl")
    }

    /// The directory of what is being made.
    pub fn temporary_path(&self) -> (path: Vec<u8>)
        ensures
            path@ == store_place(self@, "tmp"@),
    {
        self.place("tmp")
    }

    /// The database of the intents.
    pub fn state_path(&self) -> (path: Vec<u8>)
        ensures
            path@ == store_place(self@, "state.sqlite"@),
    {
        self.place("state.sqlite")
    }

    /// The lock that a collection takes for itself.
    pub fn gc_lock_path(&self) -> (path: Vec<u8>)
        ensures
            path@ == store_place(self@, "locks/gc"@),
    {
        self.place("locks/gc")
    }

    /// The second link to the plan file of a request.
    pub fn request_path(&self, inode: &str) -> (path: Vec<u8>)
        ensures
            path@ == store_entry(self@, "requests"@, inode@),
    {
        self.entry("requests", inode)
    }

    /// The installation of a plan.
    pub fn install_object(&self, plan_key: &str) -> (path: Vec<u8>)
        ensures
            path@ == installation_path(self@, plan_key@),
    {
        let name = key_name(plan_key);
        self.entry("install", name.as_str())
    }

    /// The lock of the installation of a plan.
    pub fn install_lock(&self, plan_key: &str) -> (path: Vec<u8>)
        ensures
            path@ == store_entry(self@, "locks/install"@, key_digest(plan_key@)),
    {
        let name = key_name(plan_key);
        self.entry("locks/install", name.as_str())
    }

    /// The download of a key.
    pub fn download_object(&self, key: &str) -> (path: Vec<u8>)
        ensures
            path@ == download_path(self@, key@),
    {
        let name = key_name(key);
        self.entry("dl", name.as_str())
    }

    /// The lock of the download of a key.
    pub fn download_lock(&self, key: &str) -> (path: Vec<u8>)
        ensures
            path@ == store_entry(self@, "locks/dl"@, key_digest(key@)),
    {
        let name = key_name(key);
        self.entry("locks/dl", name.as_str())
    }
}

/// The installed files of an installation.
pub open spec fn root_path(object: Seq<u8>) -> Seq<u8> {
    path_join(object, encode_utf8("root"@))
}

/// The installed files of an installation.
pub fn object_root(object: &[u8]) -> (path: Vec<u8>)
    ensures
        path@ == root_path(object@),
{
    join_path(object, "root".as_bytes())
}

/// What is kept under plain names in two directories of a store is right below
/// these directories, and is the same only if the directories and the names are.
pub proof fn store_entries_are_apart(
    root: Seq<u8>,
    directory: Seq<char>,
    name: Seq<char>,
    other_directory: Seq<char>,
    other_name: Seq<char>,
)
    requires
        plain_name(directory),
        plain_name(name),
        plain_name(other_directory),
        plain_name(other_name),
        directory != other_directory || name != other_name,
    ensures
        is_below(store_place(root, directory), store_entry(root, directory, name)),
        is_below(root, store_place(root, directory)),
        path_components(store_entry(root, directory, name)) != path_components(
            store_entry(root, other_directory, other_name),
        ),
{
    plain_name_stays_below(root, directory);
    plain_name_stays_below(store_place(root, directory), name);
    plain_name_stays_below(root, other_directory);
    plain_name_stays_below(store_place(root, other_directory), other_name);
    let steps = path_components(store_entry(root, directory, name));
    let other = path_components(store_entry(root, other_directory, other_name));
    let start = path_components(root);
    assert(steps[start.len() as int] == ComponentView::Normal(encode_utf8(directory)));
    assert(other[start.len() as int] == ComponentView::Normal(encode_utf8(other_directory)));
    assert(steps[start.len() as int + 1] == ComponentView::Normal(encode_utf8(name)));
    assert(other[start.len() as int + 1] == ComponentView::Normal(encode_utf8(other_name)));
    vstd::utf8::encode_utf8_decode_utf8(directory);
    vstd::utf8::encode_utf8_decode_utf8(other_directory);
    vstd::utf8::encode_utf8_decode_utf8(name);
    vstd::utf8::encode_utf8_decode_utf8(other_name);
}

proof fn lemma_place(root: Seq<u8>, name: Seq<char>)
    requires
        root.len() > 0,
        root.last() != 47,
        name.len() > 0,
        is_ascii_chars(name),
        name[0] != '/',
        name.last() != '/',
    ensures
        path_join(root, encode_utf8(name)) == root + seq![47u8] + encode_utf8(name),
        path_join(root, encode_utf8(name)).len() > 0,
        path_join(root, encode_utf8(name)).last() != 47,
{
    is_ascii_chars_encode_utf8(name);
    let bytes = encode_utf8(name);
    assert(bytes[0] == name[0] as u8);
    assert(bytes[bytes.len() - 1] == name[name.len() - 1] as u8);
    assert(bytes[0] != 47);
    assert(bytes.last() != 47);
    paths_are_joined_with_one_slash(root, bytes);
}

/// Where things are in a store: installations below `install` and downloads below `dl`,
/// each under the digest of its key. The installed files are in `root` of an object, and
/// the downloaded bytes in `data`.
pub proof fn objects_are_kept_under_the_digest_of_their_key(
    root: Seq<u8>,
    key: Seq<char>,
    object: Seq<u8>,
)
    requires
        root.len() > 0,
        root.last() != 47,
        object.len() > 0,
        object.last() != 47,
    ensures
        ({
            let slash = seq![47u8];
            let name = encode_utf8(hex_text(sha256(encode_utf8(key))));
            &&& installation_path(root, key) == root + slash + encode_utf8("install"@) + slash
                + name
            &&& download_path(root, key) == root + slash + encode_utf8("dl"@) + slash + name
            &&& root_path(object) == object + slash + encode_utf8("root"@)
            &&& crate::artifact::data_path(object) == object + slash + encode_utf8("data"@)
        }),
{
    reveal_strlit("install");
    reveal_strlit("dl");
    reveal_strlit("root");
    reveal_strlit("data");
    let digest = sha256(encode_utf8(key));
    let name = hex_text(digest);
    lemma_place(root, "install"@);
    lemma_place(root, "dl"@);
    lemma_place(object, "root"@);
    lemma_place(object, "data"@);
    let places = (store_place(root, "install"@), store_place(root, "dl"@));
    if digest.len() > 0 {
        lemma_hex_text_is_plain(digest);
        assert(name.contains(name[0]) && name.contains(name.last()));
        lemma_place(places.0, name);
        lemma_place(places.1, name);
    } else {
        assert(name =~= Seq::<char>::empty());
        paths_are_joined_with_one_slash(places.0, encode_utf8(name));
        paths_are_joined_with_one_slash(places.1, encode_utf8(name));
    }
}

/// A store is made of its root, which nobody else looks into, and its six directories,
/// in that order.
pub proof fn stores_are_laid_out(root: Seq<u8>)
    ensures
        layout_steps(root) == seq![
            StepView::CreateTree { path: root },
            StepView::SetMode { path: root, mode: 0o700 },
            StepView::CreateTree { path: path_join(root, encode_utf8("requests"@)) },
            StepView::CreateTree { path: path_join(root, encode_utf8("dl"@)) },
            StepView::CreateTree { path: path_join(root, encode_utf8("install"@)) },
            StepView::CreateTree { path: path_join(root, encode_utf8("locks/dl"@)) },
            StepView::CreateTree { path: path_join(root, encode_utf8("locks/install"@)) },
            StepView::CreateTree { path: path_join(root, encode_utf8("tmp"@)) },
        ],
{
    assert(layout_steps(root) =~= seq![
        StepView::CreateTree { path: root },
        StepView::SetMode { path: root, mode: 0o700 },
        StepView::CreateTree { path: path_join(root, encode_utf8("requests"@)) },
        StepView::CreateTree { path: path_join(root, encode_utf8("dl"@)) },
        StepView::CreateTree { path: path_join(root, encode_utf8("install"@)) },
        StepView::CreateTree { path: path_join(root, encode_utf8("locks/dl"@)) },
        StepView::CreateTree { path: path_join(root, encode_utf8("locks/install"@)) },
        StepView::CreateTree { path: path_join(root, encode_utf8("tmp"@)) },
    ]);
}

/// A file of a store is in its directory below the root, under its own name. What goes
/// wrong with the root or with a directory is told with its name, and the rest as it came.
pub proof fn entries_are_below_their_directory(
    root: Seq<u8>,
    directory: Seq<char>,
    name: Seq<char>,
    reason: Seq<char>,
    index: int,
)
    ensures
        store_place(root, directory) == path_join(root, encode_utf8(directory)),
        store_entry(root, directory, name) == path_join(
            path_join(root, encode_utf8(directory)),
            encode_utf8(name),
        ),
        layout_failure(root, 0, reason) == (ErrorView::CreateRoot { path: root, reason }),
        layout_failure(root, 2, reason) == (ErrorView::CreateStoreDirectory {
            name: "requests"@,
            reason,
        }),
        layout_failure(root, 3, reason) == (ErrorView::CreateStoreDirectory {
            name: "dl"@,
            reason,
        }),
        layout_failure(root, 4, reason) == (ErrorView::CreateStoreDirectory {
            name: "install"@,
            reason,
        }),
        layout_failure(root, 5, reason) == (ErrorView::CreateStoreDirectory {
            name: "locks/dl"@,
            reason,
        }),
        layout_failure(root, 6, reason) == (ErrorView::CreateStoreDirectory {
            name: "locks/install"@,
            reason,
        }),
        layout_failure(root, 7, reason) == (ErrorView::CreateStoreDirectory {
            name: "tmp"@,
            reason,
        }),
        index == 1 || index > 7 ==> layout_failure(root, index, reason) == (ErrorView::Failed {
            reason,
        }),
{
}

} // verus!
