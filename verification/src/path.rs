//! Paths of the local file system, as the byte strings that they are there.

use vstd::prelude::*;
use vstd::utf8::*;

use crate::error::{Error, ErrorView, PathError, PathErrorView};
use crate::text::{is_utf8, raws, same_bytes};

verus! {

/// The byte between two parts of a path.
pub const SEPARATOR: u8 = 47;

/// The path of the current directory.
pub open spec fn dot() -> Seq<u8> {
    seq![46u8]
}

/// The name of the parent directory.
pub open spec fn dot_dot() -> Seq<u8> {
    seq![46u8, 46u8]
}

/// The pieces of a byte string that lie before, between and after its
/// separators: one more than there are separators.
pub open spec fn split(bytes: Seq<u8>, separator: u8) -> Seq<Seq<u8>>
    decreases bytes.len(),
{
    if bytes.len() == 0 {
        seq![Seq::empty()]
    } else {
        let pieces = split(bytes.drop_last(), separator);
        if bytes.last() == separator {
            pieces.push(Seq::empty())
        } else {
            pieces.drop_last().push(pieces.last().push(bytes.last()))
        }
    }
}

/// The pieces with a separator between each two of them.
pub open spec fn join_pieces(pieces: Seq<Seq<u8>>, separator: u8) -> Seq<u8>
    decreases pieces.len(),
{
    if pieces.len() == 0 {
        Seq::empty()
    } else if pieces.len() == 1 {
        pieces[0]
    } else {
        join_pieces(pieces.drop_last(), separator).push(separator) + pieces.last()
    }
}

/// One step of a path.
#[derive(Debug)]
pub enum Component {
    RootDir,
    CurDir,
    ParentDir,
    Normal(Vec<u8>),
}

/// The mathematical form of [`Component`].
pub enum ComponentView {
    RootDir,
    CurDir,
    ParentDir,
    Normal(Seq<u8>),
}

impl View for Component {
    type V = ComponentView;

    open spec fn view(&self) -> ComponentView {
        match self {
            Component::RootDir => ComponentView::RootDir,
            Component::CurDir => ComponentView::CurDir,
            Component::ParentDir => ComponentView::ParentDir,
            Component::Normal(name) => ComponentView::Normal(name@),
        }
    }
}

/// The mathematical form of a list of components.
pub open spec fn component_views(list: Seq<Component>) -> Seq<ComponentView> {
    list.map_values(|component: Component| component@)
}

/// Whether a path starts at the root.
pub open spec fn is_absolute(path: Seq<u8>) -> bool {
    path.len() > 0 && path[0] == SEPARATOR
}

/// The steps that the parts of a path stand for: an empty part stands for none,
/// and neither does `.`, except as the first part.
pub open spec fn part_components(parts: Seq<Seq<u8>>) -> Seq<ComponentView>
    decreases parts.len(),
{
    if parts.len() == 0 {
        Seq::empty()
    } else {
        let before = part_components(parts.drop_last());
        let part = parts.last();
        if part.len() == 0 {
            before
        } else if part == dot() {
            if parts.len() == 1 {
                before.push(ComponentView::CurDir)
            } else {
                before
            }
        } else if part == dot_dot() {
            before.push(ComponentView::ParentDir)
        } else {
            before.push(ComponentView::Normal(part))
        }
    }
}

/// The steps of a path. Two paths with the same steps are the same path.
pub open spec fn path_components(path: Seq<u8>) -> Seq<ComponentView> {
    let steps = part_components(split(path, SEPARATOR));
    if is_absolute(path) {
        seq![ComponentView::RootDir] + steps
    } else {
        steps
    }
}

/// Whether a path is the current directory, however it is written.
pub open spec fn is_current(path: Seq<u8>) -> bool {
    path_components(path) == seq![ComponentView::CurDir]
}

/// Whether a part of a path is empty, `.` or `..`.
pub open spec fn unsafe_part(part: Seq<u8>) -> bool {
    part.len() == 0 || part == dot() || part == dot_dot()
}

/// Whether a path has a part that is empty, `.` or `..`.
pub open spec fn has_unsafe_part(path: Seq<u8>) -> bool {
    exists|i: int|
        0 <= i < split(path, SEPARATOR).len() && #[trigger] unsafe_part(split(path, SEPARATOR)[i])
}

/// What is wrong with a path as a relative path, if anything is. The current
/// directory is acceptable only where the caller allows it.
pub open spec fn relative_path_error(path: Seq<u8>, allow_current: bool) -> Option<PathErrorView> {
    if allow_current && is_current(path) {
        None
    } else if path.len() == 0 {
        Some(PathErrorView::Empty)
    } else if is_absolute(path) {
        Some(PathErrorView::Absolute { path })
    } else if !valid_utf8(path) {
        Some(PathErrorView::NotUtf8)
    } else if path.contains(0u8) {
        Some(PathErrorView::Nul)
    } else if has_unsafe_part(path) {
        Some(PathErrorView::Unsafe { path })
    } else {
        None
    }
}

/// What is wrong with a file name, if anything is.
pub open spec fn file_name_error(name: Seq<char>) -> Option<ErrorView> {
    let path = encode_utf8(name);
    if name.len() == 0 {
        Some(ErrorView::EmptyFileName)
    } else if relative_path_error(path, false) is Some {
        Some(ErrorView::Path { cause: relative_path_error(path, false)->0 })
    } else if path_components(path).len() != 1 {
        Some(ErrorView::NotSingleName { name })
    } else {
        None
    }
}

/// The path that a second path names from a first one.
pub open spec fn path_join(base: Seq<u8>, path: Seq<u8>) -> Seq<u8> {
    if is_absolute(path) {
        path
    } else if base.len() == 0 || base.last() == SEPARATOR {
        base + path
    } else {
        base.push(SEPARATOR) + path
    }
}

/// The names among the steps of a path.
pub open spec fn normal_names(steps: Seq<ComponentView>) -> Seq<Seq<u8>>
    decreases steps.len(),
{
    if steps.len() == 0 {
        Seq::empty()
    } else {
        match steps.last() {
            ComponentView::Normal(name) => normal_names(steps.drop_last()).push(name),
            _ => normal_names(steps.drop_last()),
        }
    }
}

/// What is left of a path without its first `count` steps; nothing at all where
/// it has no more steps than that.
pub open spec fn stripped_path(path: Seq<u8>, count: nat) -> Option<Seq<u8>> {
    let steps = path_components(path);
    if steps.len() <= count {
        None
    } else {
        Some(join_pieces(normal_names(steps.skip(count as int)), SEPARATOR))
    }
}

/// Splits a byte string at its separators.
pub fn split_bytes(bytes: &[u8], separator: u8) -> (pieces: Vec<Vec<u8>>)
    ensures
        raws(pieces@) == split(bytes@, separator),
{
    let mut pieces: Vec<Vec<u8>> = Vec::new();
    let mut current: Vec<u8> = Vec::new();
    let mut i: usize = 0;
    assert(raws(pieces@).push(current@) =~= split(bytes@.take(0), separator));
    while i < bytes.len()
        invariant
            i <= bytes.len(),
            raws(pieces@).push(current@) == split(bytes@.take(i as int), separator),
        decreases bytes.len() - i,
    {
        let byte: u8 = bytes[i];
        proof {
            assert(bytes@.take(i + 1).drop_last() == bytes@.take(i as int));
        }
        if byte == separator {
            let ghost before = raws(pieces@).push(current@);
            pieces.push(current);
            current = Vec::new();
            assert(raws(pieces@) =~= before);
        } else {
            let ghost before = raws(pieces@).push(current@);
            let ghost piece = current@;
            current.push(byte);
            assert(before.drop_last() =~= raws(pieces@));
        }
        i += 1;
    }
    assert(bytes@.take(i as int) == bytes@);
    let ghost before = raws(pieces@).push(current@);
    pieces.push(current);
    assert(raws(pieces@) =~= before);
    pieces
}

/// The steps of a path.
pub fn components(path: &[u8]) -> (steps: Vec<Component>)
    ensures
        component_views(steps@) == path_components(path@),
{
    let parts = split_bytes(path, SEPARATOR);
    let mut steps: Vec<Component> = Vec::new();
    let ghost root: Seq<ComponentView> = if is_absolute(path@) {
        seq![ComponentView::RootDir]
    } else {
        Seq::empty()
    };
    if path.len() > 0 && path[0] == SEPARATOR {
        steps.push(Component::RootDir);
    }
    assert(component_views(steps@) =~= root);
    let mut i: usize = 0;
    assert(root + part_components(raws(parts@).take(0)) =~= root);
    while i < parts.len()
        invariant
            i <= parts.len(),
            component_views(steps@) == root + part_components(raws(parts@).take(i as int)),
        decreases parts.len() - i,
    {
        let part = &parts[i];
        let ghost before = component_views(steps@);
        let ghost earlier = part_components(raws(parts@).take(i as int));
        proof {
            assert(raws(parts@).take(i + 1).drop_last() == raws(parts@).take(i as int));
            assert(raws(parts@).take(i + 1).last() == part@);
        }
        let current: [u8; 1] = [46];
        let parent: [u8; 2] = [46, 46];
        assert(current@ =~= dot());
        assert(parent@ =~= dot_dot());
        if part.len() == 0 {
        } else if same_bytes(part.as_slice(), &current) {
            if i == 0 {
                steps.push(Component::CurDir);
                assert(component_views(steps@) =~= before.push(ComponentView::CurDir));
                assert(root + earlier.push(ComponentView::CurDir) =~= before.push(
                    ComponentView::CurDir,
                ));
            }
        } else if same_bytes(part.as_slice(), &parent) {
            steps.push(Component::ParentDir);
            assert(component_views(steps@) =~= before.push(ComponentView::ParentDir));
            assert(root + earlier.push(ComponentView::ParentDir) =~= before.push(
                ComponentView::ParentDir,
            ));
        } else {
            steps.push(Component::Normal(part.clone()));
            assert(component_views(steps@) =~= before.push(ComponentView::Normal(part@)));
            assert(root + earlier.push(ComponentView::Normal(part@)) =~= before.push(
                ComponentView::Normal(part@),
            ));
        }
        i += 1;
    }
    assert(raws(parts@).take(i as int) == raws(parts@));
    assert(root + part_components(raws(parts@)) =~= path_components(path@));
    steps
}

/// Whether a path is the current directory, however it is written.
pub fn is_current_dir(path: &[u8]) -> (current: bool)
    ensures
        current == is_current(path@),
{
    let steps = components(path);
    if steps.len() != 1 {
        assert(path_components(path@).len() != 1);
        return false;
    }
    match &steps[0] {
        Component::CurDir => {
            assert(component_views(steps@) =~= seq![ComponentView::CurDir]);
            true
        },
        _ => {
            assert(component_views(steps@)[0] != ComponentView::CurDir);
            false
        },
    }
}

/// Whether two paths take the same steps.
pub fn same_path(left: &[u8], right: &[u8]) -> (same: bool)
    ensures
        same == (path_components(left@) == path_components(right@)),
{
    let first = components(left);
    let second = components(right);
    if first.len() != second.len() {
        assert(path_components(left@).len() != path_components(right@).len());
        return false;
    }
    let mut i: usize = 0;
    while i < first.len()
        invariant
            i <= first.len(),
            first.len() == second.len(),
            component_views(first@) == path_components(left@),
            component_views(second@) == path_components(right@),
            forall|k: int|
                0 <= k < i ==> component_views(first@)[k] == component_views(second@)[k],
        decreases first.len() - i,
    {
        let same = match (&first[i], &second[i]) {
            (Component::RootDir, Component::RootDir) => true,
            (Component::CurDir, Component::CurDir) => true,
            (Component::ParentDir, Component::ParentDir) => true,
            (Component::Normal(one), Component::Normal(other)) => same_bytes(
                one.as_slice(),
                other.as_slice(),
            ),
            _ => false,
        };
        assert(same == (component_views(first@)[i as int] == component_views(second@)[i as int]));
        if !same {
            return false;
        }
        i += 1;
    }
    assert(component_views(first@) =~= component_views(second@));
    true
}

/// Accepts a path that stays below the place it starts from: relative, valid
/// UTF-8, and without an empty, `.` or `..` part. The current directory itself
/// is accepted only where `allow_current` says so.
pub fn validate_relative_path(path: &[u8], allow_current: bool) -> (result: Result<(), PathError>)
    ensures
        match result {
            Ok(()) => relative_path_error(path@, allow_current) is None,
            Err(error) => relative_path_error(path@, allow_current) == Some(error@),
        },
        !allow_current ==> (result is Ok <==> {
            &&& valid_utf8(path@)
            &&& !path@.contains(0u8)
            &&& exists|names: Seq<Seq<u8>>| #[trigger]
                join_pieces(names, 47) == path@ && names.len() > 0 && forall|i: int|
                    0 <= i < names.len() ==> {
                        &&& (#[trigger] names[i]).len() > 0
                        &&& names[i] != seq![46u8]
                        &&& names[i] != seq![46u8, 46u8]
                        &&& !names[i].contains(47u8)
                    }
        }),
{
    proof {
        accepted_paths_are_ordinary_names(path@);
    }
    if allow_current && is_current_dir(path) {
        return Ok(());
    }
    if path.len() == 0 {
        return Err(PathError::Empty);
    }
    if path[0] == SEPARATOR {
        return Err(PathError::Absolute { path: vstd::slice::slice_to_vec(path) });
    }
    if !is_utf8(path) {
        return Err(PathError::NotUtf8);
    }
    let mut i: usize = 0;
    while i < path.len()
        invariant
            i <= path.len(),
            forall|k: int| 0 <= k < i ==> path@[k] != 0u8,
            path.len() > 0,
            !is_absolute(path@),
            valid_utf8(path@),
            !(allow_current && is_current(path@)),
        decreases path.len() - i,
    {
        if path[i] == 0 {
            assert(path@.contains(0u8));
            return Err(PathError::Nul);
        }
        i += 1;
    }
    assert(!path@.contains(0u8));
    let parts = split_bytes(path, SEPARATOR);
    let current: [u8; 1] = [46];
    let parent: [u8; 2] = [46, 46];
    assert(current@ =~= dot());
    assert(parent@ =~= dot_dot());
    let mut n: usize = 0;
    while n < parts.len()
        invariant
            n <= parts.len(),
            raws(parts@) == split(path@, SEPARATOR),
            current@ == dot(),
            parent@ == dot_dot(),
            forall|k: int| 0 <= k < n ==> !unsafe_part(#[trigger] raws(parts@)[k]),
            path.len() > 0,
            !is_absolute(path@),
            valid_utf8(path@),
            !path@.contains(0u8),
            !(allow_current && is_current(path@)),
        decreases parts.len() - n,
    {
        let part = &parts[n];
        if part.len() == 0 || same_bytes(part.as_slice(), &current) || same_bytes(
            part.as_slice(),
            &parent,
        ) {
            assert(unsafe_part(raws(parts@)[n as int]));
            assert(unsafe_part(split(path@, SEPARATOR)[n as int]));
            proof {
                accepted_paths_are_ordinary_names(path@);
            }
            return Err(PathError::Unsafe { path: vstd::slice::slice_to_vec(path) });
        }
        assert(raws(parts@)[n as int] == part@);
        n += 1;
    }
    Ok(())
}

/// Accepts a name that is a single step below the place it starts from.
pub fn validate_file_name(name: &String) -> (result: Result<(), Error>)
    ensures
        match result {
            Ok(()) => file_name_error(name@) is None,
            Err(error) => file_name_error(name@) == Some(error@),
        },
{
    if name.as_str().is_empty() {
        return Err(Error::EmptyFileName);
    }
    let path = name.as_str().as_bytes();
    match validate_relative_path(path, false) {
        Ok(()) => {},
        Err(cause) => {
            return Err(Error::Path { cause });
        },
    }
    if components(path).len() != 1 {
        return Err(Error::NotSingleName { name: name.clone() });
    }
    Ok(())
}

/// The path that `path` names from `base`.
pub fn join_path(base: &[u8], path: &[u8]) -> (joined: Vec<u8>)
    ensures
        joined@ == path_join(base@, path@),
{
    if path.len() > 0 && path[0] == SEPARATOR {
        return vstd::slice::slice_to_vec(path);
    }
    let mut joined = vstd::slice::slice_to_vec(base);
    if base.len() > 0 && base[base.len() - 1] != SEPARATOR {
        joined.push(SEPARATOR);
    }
    joined.extend_from_slice(path);
    assert(joined@ =~= path_join(base@, path@));
    joined
}

/// What is left of a path without its first `count` steps.
pub fn strip_components(path: &[u8], count: usize) -> (rest: Option<Vec<u8>>)
    ensures
        match rest {
            Some(rest) => stripped_path(path@, count as nat) == Some(rest@),
            None => stripped_path(path@, count as nat) is None,
        },
{
    let steps = components(path);
    if steps.len() <= count {
        assert(path_components(path@).len() <= count);
        return None;
    }
    let ghost left = path_components(path@).skip(count as int);
    let mut rest: Vec<u8> = Vec::new();
    let mut any = false;
    let mut i: usize = count;
    assert(normal_names(left.take(0)) =~= Seq::<Seq<u8>>::empty());
    while i < steps.len()
        invariant
            count <= i <= steps.len(),
            component_views(steps@) == path_components(path@),
            left == path_components(path@).skip(count as int),
            any == (normal_names(left.take(i - count)).len() > 0),
            rest@ == join_pieces(normal_names(left.take(i - count)), SEPARATOR),
        decreases steps.len() - i,
    {
        let ghost names = normal_names(left.take(i - count));
        proof {
            assert(left.take(i - count + 1).drop_last() == left.take(i - count));
            assert(left[i - count] == component_views(steps@)[i as int]);
        }
        match &steps[i] {
            Component::Normal(name) => {
                assert(names.push(name@).drop_last() == names);
                if any {
                    rest.push(SEPARATOR);
                }
                rest.extend_from_slice(name.as_slice());
                assert(rest@ =~= join_pieces(names.push(name@), SEPARATOR));
                any = true;
            },
            _ => {},
        }
        i += 1;
    }
    assert(left.take(i - count) == left);
    Some(rest)
}

/// Every byte string has at least one piece.
pub proof fn lemma_split_nonempty(bytes: Seq<u8>, separator: u8)
    ensures
        split(bytes, separator).len() >= 1,
    decreases bytes.len(),
{
    if bytes.len() > 0 {
        lemma_split_nonempty(bytes.drop_last(), separator);
    }
}

/// The pieces of a byte string hold no separator, and with separators between
/// them they are the byte string again.
pub proof fn split_undone_by_join(bytes: Seq<u8>, separator: u8)
    ensures
        join_pieces(split(bytes, separator), separator) == bytes,
        forall|i: int|
            0 <= i < split(bytes, separator).len() ==> !(#[trigger] split(
                bytes,
                separator,
            )[i]).contains(separator),
    decreases bytes.len(),
{
    if bytes.len() > 0 {
        let before = bytes.drop_last();
        let pieces = split(before, separator);
        split_undone_by_join(before, separator);
        lemma_split_nonempty(before, separator);
        if bytes.last() == separator {
            assert(pieces.push(Seq::empty()).drop_last() == pieces);
            assert(join_pieces(pieces.push(Seq::empty()), separator) =~= before.push(separator));
            assert(before.push(separator) =~= bytes);
        } else {
            let grown = pieces.last().push(bytes.last());
            let all = pieces.drop_last().push(grown);
            assert(all.drop_last() == pieces.drop_last());
            assert(!grown.contains(separator)) by {
                assert forall|k: int| 0 <= k < grown.len() implies grown[k] != separator by {
                    if k < pieces.last().len() {
                        assert(pieces.last()[k] != separator) by {
                            if pieces.last()[k] == separator {
                                assert(pieces[pieces.len() - 1].contains(separator));
                            }
                        }
                    }
                }
            }
            assert(join_pieces(all, separator) =~= join_pieces(pieces, separator).push(
                bytes.last(),
            ));
            assert(before.push(bytes.last()) =~= bytes);
        }
    }
}

/// A separator between two byte strings parts their pieces.
pub proof fn lemma_split_concat(left: Seq<u8>, right: Seq<u8>, separator: u8)
    ensures
        split(left.push(separator) + right, separator) == split(left, separator) + split(
            right,
            separator,
        ),
    decreases right.len(),
{
    let whole = left.push(separator) + right;
    let first = split(left, separator);
    if right.len() == 0 {
        assert(whole =~= left.push(separator));
        assert(whole.drop_last() =~= left);
        assert(first.push(Seq::empty()) =~= first + split(right, separator));
    } else {
        let shorter = right.drop_last();
        lemma_split_concat(left, shorter, separator);
        lemma_split_nonempty(shorter, separator);
        assert(whole.drop_last() =~= left.push(separator) + shorter);
        let second = split(shorter, separator);
        if right.last() == separator {
            assert((first + second).push(Seq::empty()) =~= first + second.push(Seq::empty()));
        } else {
            let grown = second.last().push(right.last());
            assert((first + second).drop_last().push((first + second).last().push(right.last()))
                =~= first + second.drop_last().push(grown));
        }
    }
}

/// The steps that name the given parts.
pub open spec fn named_steps(parts: Seq<Seq<u8>>) -> Seq<ComponentView> {
    parts.map_values(|part: Seq<u8>| ComponentView::Normal(part))
}

proof fn lemma_safe_parts(before: Seq<Seq<u8>>, parts: Seq<Seq<u8>>)
    requires
        forall|i: int| 0 <= i < parts.len() ==> !unsafe_part(#[trigger] parts[i]),
    ensures
        part_components(before + parts) == part_components(before) + named_steps(parts),
    decreases parts.len(),
{
    if parts.len() == 0 {
        assert(before + parts =~= before);
        assert(part_components(before) + named_steps(parts) =~= part_components(before));
    } else {
        let fewer = parts.drop_last();
        assert forall|i: int| 0 <= i < fewer.len() implies !unsafe_part(#[trigger] fewer[i]) by {
            assert(!unsafe_part(parts[i]));
        }
        lemma_safe_parts(before, fewer);
        assert((before + parts).drop_last() =~= before + fewer);
        assert(!unsafe_part(parts[parts.len() - 1]));
        assert(part_components(before + parts) == (part_components(before) + named_steps(
            fewer,
        )).push(ComponentView::Normal(parts.last())));
        assert(part_components(before + parts) =~= part_components(before) + named_steps(parts));
    }
}

/// Whether all parts of a path are names.
pub open spec fn all_names(path: Seq<u8>) -> bool {
    !has_unsafe_part(path)
}

/// Whether a path leads below a place: the steps to that place, and then one or
/// more names.
pub open spec fn is_below(base: Seq<u8>, path: Seq<u8>) -> bool {
    exists|names: Seq<Seq<u8>>|
        names.len() > 0 && path_components(path) == path_components(base)
            + #[trigger] named_steps(names)
}

proof fn lemma_names_join(base: Seq<u8>, path: Seq<u8>)
    requires
        all_names(path),
    ensures
        !is_absolute(path),
        path_components(path) == named_steps(split(path, SEPARATOR)),
        split(path, SEPARATOR).len() >= 1,
        path_components(path_join(base, path)) == path_components(base) + named_steps(
            split(path, SEPARATOR),
        ),
{
    let parts = split(path, SEPARATOR);
    lemma_split_nonempty(path, SEPARATOR);
    assert forall|i: int| 0 <= i < parts.len() implies !unsafe_part(#[trigger] parts[i]) by {
        if unsafe_part(parts[i]) {
            assert(has_unsafe_part(path));
        }
    }
    lemma_safe_parts(Seq::empty(), parts);
    assert(Seq::<Seq<u8>>::empty() + parts =~= parts);
    assert(part_components(Seq::empty()) + named_steps(parts) =~= named_steps(parts));
    assert(!is_absolute(path)) by {
        if is_absolute(path) {
            let rest = path.skip(1);
            assert(path =~= Seq::<u8>::empty().push(SEPARATOR) + rest);
            lemma_split_concat(Seq::empty(), rest, SEPARATOR);
            assert(parts[0] =~= Seq::<u8>::empty());
            assert(unsafe_part(parts[0]));
        }
    }
    if base.len() == 0 {
        assert(base + path =~= path);
        assert(split(base, SEPARATOR) =~= seq![Seq::<u8>::empty()]);
        assert(seq![Seq::<u8>::empty()].drop_last() =~= Seq::<Seq<u8>>::empty());
        assert(part_components(seq![Seq::<u8>::empty()]) =~= Seq::<ComponentView>::empty()) by {
            reveal_with_fuel(part_components, 2);
        }
        assert(path_components(base) + path_components(path) =~= path_components(path));
    } else {
        let stem = if base.last() == SEPARATOR {
            base.drop_last()
        } else {
            base
        };
        let whole = path_join(base, path);
        assert(whole =~= stem.push(SEPARATOR) + path);
        lemma_split_concat(stem, path, SEPARATOR);
        lemma_safe_parts(split(stem, SEPARATOR), parts);
        if base.last() == SEPARATOR {
            assert(split(base, SEPARATOR) == split(stem, SEPARATOR).push(Seq::empty()));
            assert(split(base, SEPARATOR).drop_last() =~= split(stem, SEPARATOR));
        }
        assert(part_components(split(base, SEPARATOR)) == part_components(split(stem, SEPARATOR)));
        assert(whole[0] == base[0]);
        assert(path_components(whole) =~= path_components(base) + named_steps(parts));
    }
}

/// The steps of an acceptable relative path are its parts, each of them a name;
/// there is at least one.
pub proof fn accepted_path_is_names(path: Seq<u8>)
    requires
        relative_path_error(path, false) is None,
    ensures
        path_components(path) == named_steps(split(path, SEPARATOR)),
        path_components(path).len() >= 1,
{
    lemma_names_join(Seq::empty(), path);
}

/// An acceptable relative path leads from any place to one below it: the steps
/// to that place, and then the steps of the path.
pub proof fn accepted_path_stays_below(base: Seq<u8>, path: Seq<u8>)
    requires
        relative_path_error(path, false) is None,
    ensures
        path_components(path_join(base, path)) == path_components(base) + path_components(path),
        is_below(base, path_join(base, path)),
{
    lemma_names_join(base, path);
    assert(named_steps(split(path, SEPARATOR)).len() > 0);
}

/// Whether a text is one ASCII name that does not start with a dot.
pub open spec fn plain_name(name: Seq<char>) -> bool {
    &&& name.len() > 0
    &&& is_ascii_chars(name)
    &&& name[0] != '.'
    &&& !name.contains('/')
}

/// A plain name leads from any place to one right below it.
pub proof fn plain_name_stays_below(base: Seq<u8>, name: Seq<char>)
    requires
        plain_name(name),
    ensures
        path_components(path_join(base, encode_utf8(name))) == path_components(base).push(
            ComponentView::Normal(encode_utf8(name)),
        ),
        is_below(base, path_join(base, encode_utf8(name))),
{
    is_ascii_chars_encode_utf8(name);
    let bytes = encode_utf8(name);
    let pieces = seq![bytes];
    assert forall|i: int| 0 <= i < bytes.len() implies #[trigger] bytes[i] != SEPARATOR by {
        assert(bytes[i] == name[i] as u8);
        assert(name[i] != '/');
    }
    assert(!bytes.contains(SEPARATOR));
    join_undone_by_split(pieces, SEPARATOR);
    assert(join_pieces(pieces, SEPARATOR) == bytes);
    assert(bytes[0] == name[0] as u8);
    assert(bytes != dot() && bytes != dot_dot());
    assert(!has_unsafe_part(bytes));
    lemma_names_join(base, bytes);
    assert(named_steps(pieces) =~= seq![ComponentView::Normal(bytes)]);
    assert(path_components(base) + named_steps(pieces) =~= path_components(base).push(
        ComponentView::Normal(bytes),
    ));
}

/// A path below a place that is below another one is below that one.
pub proof fn below_is_transitive(base: Seq<u8>, middle: Seq<u8>, path: Seq<u8>)
    requires
        is_below(base, middle),
        is_below(middle, path),
    ensures
        is_below(base, path),
{
    let first = choose|names: Seq<Seq<u8>>|
        names.len() > 0 && path_components(middle) == path_components(base)
            + #[trigger] named_steps(names);
    let second = choose|names: Seq<Seq<u8>>|
        names.len() > 0 && path_components(path) == path_components(middle)
            + #[trigger] named_steps(names);
    assert(path_components(base) + named_steps(first) + named_steps(second)
        =~= path_components(base) + named_steps(first + second));
}

/// Pieces without a separator are what the pieces of their join are.
pub proof fn join_undone_by_split(pieces: Seq<Seq<u8>>, separator: u8)
    requires
        pieces.len() > 0,
        forall|i: int| 0 <= i < pieces.len() ==> !(#[trigger] pieces[i]).contains(separator),
    ensures
        split(join_pieces(pieces, separator), separator) == pieces,
    decreases pieces.len(),
{
    let fewer = pieces.drop_last();
    assert(!pieces[pieces.len() - 1].contains(separator));
    lemma_split_single(pieces.last(), separator);
    if pieces.len() == 1 {
        assert(seq![pieces.last()] =~= pieces);
    } else {
        assert forall|i: int| 0 <= i < fewer.len() implies !(#[trigger] fewer[i]).contains(
            separator,
        ) by {
            assert(!pieces[i].contains(separator));
        }
        join_undone_by_split(fewer, separator);
        lemma_split_concat(join_pieces(fewer, separator), pieces.last(), separator);
        assert(fewer + seq![pieces.last()] =~= pieces);
    }
}

proof fn lemma_split_single(bytes: Seq<u8>, separator: u8)
    requires
        !bytes.contains(separator),
    ensures
        split(bytes, separator) == seq![bytes],
    decreases bytes.len(),
{
    if bytes.len() > 0 {
        let before = bytes.drop_last();
        assert(!before.contains(separator)) by {
            if before.contains(separator) {
                let i = choose|i: int| 0 <= i < before.len() && before[i] == separator;
                assert(bytes[i] == separator);
            }
        }
        lemma_split_single(before, separator);
        assert(bytes[bytes.len() - 1] == bytes.last());
        assert(before.push(bytes.last()) =~= bytes);
        assert(seq![before].drop_last().push(bytes) =~= seq![bytes]);
    } else {
        assert(bytes =~= Seq::<u8>::empty());
        assert(seq![Seq::<u8>::empty()] =~= seq![bytes]);
    }
}

proof fn lemma_named_steps_names(names: Seq<Seq<u8>>)
    ensures
        normal_names(named_steps(names)) == names,
    decreases names.len(),
{
    if names.len() > 0 {
        lemma_named_steps_names(names.drop_last());
        assert(named_steps(names).drop_last() =~= named_steps(names.drop_last()));
        assert(names.drop_last().push(names.last()) =~= names);
    } else {
        assert(normal_names(named_steps(names)) =~= names);
    }
}

/// What is left of an acceptable path without its first steps is its last parts,
/// and leads from any place to one below it.
pub proof fn stripped_path_stays_below(path: Seq<u8>, count: nat, base: Seq<u8>)
    requires
        relative_path_error(path, false) is None,
        stripped_path(path, count) is Some,
    ensures
        count < split(path, SEPARATOR).len(),
        stripped_path(path, count)->0.len() > 0,
        split(stripped_path(path, count)->0, SEPARATOR) == split(path, SEPARATOR).skip(
            count as int,
        ),
        is_below(base, path_join(base, stripped_path(path, count)->0)),
{
    let parts = split(path, SEPARATOR);
    let left = parts.skip(count as int);
    let rest = stripped_path(path, count)->0;
    lemma_names_join(base, path);
    split_undone_by_join(path, SEPARATOR);
    assert(named_steps(parts).skip(count as int) =~= named_steps(left));
    lemma_named_steps_names(left);
    assert forall|i: int| 0 <= i < left.len() implies !(#[trigger] left[i]).contains(SEPARATOR) by {
        assert(left[i] == parts[i + count]);
    }
    join_undone_by_split(left, SEPARATOR);
    assert(all_names(rest)) by {
        if has_unsafe_part(rest) {
            let i = choose|i: int|
                0 <= i < split(rest, SEPARATOR).len() && #[trigger] unsafe_part(
                    split(rest, SEPARATOR)[i],
                );
            assert(unsafe_part(parts[i + count]));
            assert(has_unsafe_part(path));
        }
    }
    lemma_names_join(base, rest);
    assert(rest.len() > 0) by {
        if rest.len() == 0 {
            assert(split(rest, SEPARATOR)[0] =~= Seq::<u8>::empty());
            assert(unsafe_part(split(rest, SEPARATOR)[0]));
        }
    }
    assert(named_steps(left).len() > 0);
}

/// How pieces are put together: one after another, with a separator between each two
/// of them and nowhere else.
pub proof fn pieces_are_joined_in_order(pieces: Seq<Seq<u8>>, last: Seq<u8>, separator: u8)
    ensures
        join_pieces(Seq::<Seq<u8>>::empty(), separator) == Seq::<u8>::empty(),
        join_pieces(seq![last], separator) == last,
        pieces.len() > 0 ==> join_pieces(pieces.push(last), separator) == join_pieces(
            pieces,
            separator,
        ) + seq![separator] + last,
{
    assert(pieces.push(last).drop_last() =~= pieces);
    if pieces.len() > 0 {
        assert(join_pieces(pieces, separator).push(separator) + last =~= join_pieces(
            pieces,
            separator,
        ) + seq![separator] + last);
    }
}

proof fn lemma_ordinary_names(names: Seq<Seq<u8>>)
    requires
        names.len() > 0,
        forall|i: int|
            0 <= i < names.len() ==> {
                &&& (#[trigger] names[i]).len() > 0
                &&& names[i] != seq![46u8]
                &&& names[i] != seq![46u8, 46u8]
                &&& !names[i].contains(47u8)
            },
    ensures
        split(join_pieces(names, SEPARATOR), SEPARATOR) == names,
        !has_unsafe_part(join_pieces(names, SEPARATOR)),
        join_pieces(names, SEPARATOR).len() > 0,
        !is_absolute(join_pieces(names, SEPARATOR)),
        path_components(join_pieces(names, SEPARATOR)) == named_steps(names),
{
    let path = join_pieces(names, SEPARATOR);
    assert forall|i: int| 0 <= i < names.len() implies !(#[trigger] names[i]).contains(
        SEPARATOR,
    ) by {
        assert(names[i].len() > 0);
    }
    join_undone_by_split(names, SEPARATOR);
    assert forall|i: int| 0 <= i < names.len() implies !unsafe_part(#[trigger] names[i]) by {
        assert(names[i].len() > 0);
    }
    lemma_names_join(Seq::empty(), path);
    if path.len() == 0 {
        assert(split(path, SEPARATOR) =~= seq![Seq::<u8>::empty()]);
        assert(names[0].len() > 0);
    }
}

proof fn lemma_parts_of_accepted(path: Seq<u8>)
    requires
        !has_unsafe_part(path),
    ensures
        ({
            let names = split(path, SEPARATOR);
            &&& names.len() > 0
            &&& path == join_pieces(names, SEPARATOR)
            &&& forall|i: int|
                0 <= i < names.len() ==> {
                    &&& (#[trigger] names[i]).len() > 0
                    &&& names[i] != seq![46u8]
                    &&& names[i] != seq![46u8, 46u8]
                    &&& !names[i].contains(47u8)
                }
        }),
{
    let names = split(path, SEPARATOR);
    lemma_split_nonempty(path, SEPARATOR);
    split_undone_by_join(path, SEPARATOR);
    assert forall|i: int| 0 <= i < names.len() implies {
        &&& (#[trigger] names[i]).len() > 0
        &&& names[i] != seq![46u8]
        &&& names[i] != seq![46u8, 46u8]
        &&& !names[i].contains(47u8)
    } by {
        assert(!unsafe_part(names[i]));
    }
}

/// Names with slashes between them are an acceptable path, hidden names among them:
/// a name is refused only if it is empty, `.` or `..`. The steps of the path are the
/// names.
pub proof fn ordinary_names_are_accepted(names: Seq<Seq<u8>>, allow_current: bool)
    requires
        names.len() > 0,
        forall|i: int|
            0 <= i < names.len() ==> {
                &&& (#[trigger] names[i]).len() > 0
                &&& names[i] != seq![46u8]
                &&& names[i] != seq![46u8, 46u8]
                &&& !names[i].contains(47u8)
            },
        valid_utf8(join_pieces(names, 47)),
        !join_pieces(names, 47).contains(0u8),
    ensures
        relative_path_error(join_pieces(names, 47), allow_current) is None,
        path_components(join_pieces(names, 47)) == names.map_values(
            |name: Seq<u8>| ComponentView::Normal(name),
        ),
{
    lemma_ordinary_names(names);
}

/// A path is acceptable exactly where it is valid UTF-8 without NUL and names with
/// slashes between them, none of them empty, `.` or `..`.
pub proof fn accepted_paths_are_ordinary_names(path: Seq<u8>)
    ensures
        relative_path_error(path, false) is None <==> {
            &&& valid_utf8(path)
            &&& !path.contains(0u8)
            &&& exists|names: Seq<Seq<u8>>| #[trigger]
                join_pieces(names, 47) == path && names.len() > 0 && forall|i: int|
                    0 <= i < names.len() ==> {
                        &&& (#[trigger] names[i]).len() > 0
                        &&& names[i] != seq![46u8]
                        &&& names[i] != seq![46u8, 46u8]
                        &&& !names[i].contains(47u8)
                    }
        },
{
    if relative_path_error(path, false) is None {
        lemma_parts_of_accepted(path);
        assert(join_pieces(split(path, SEPARATOR), 47) == path);
    }
    if exists|names: Seq<Seq<u8>>| #[trigger]
        join_pieces(names, 47) == path && names.len() > 0 && forall|i: int|
            0 <= i < names.len() ==> {
                &&& (#[trigger] names[i]).len() > 0
                &&& names[i] != seq![46u8]
                &&& names[i] != seq![46u8, 46u8]
                &&& !names[i].contains(47u8)
            } {
        let names = choose|names: Seq<Seq<u8>>| #[trigger]
            join_pieces(names, 47) == path && names.len() > 0 && forall|i: int|
                0 <= i < names.len() ==> {
                    &&& (#[trigger] names[i]).len() > 0
                    &&& names[i] != seq![46u8]
                    &&& names[i] != seq![46u8, 46u8]
                    &&& !names[i].contains(47u8)
                };
        lemma_ordinary_names(names);
    }
}

/// What is wrong with a path is told by the first of these that holds of it: it is
/// empty, starts at the root, is no UTF-8, holds a NUL, or has a piece between its
/// slashes that is empty, `.` or `..`.
pub proof fn path_faults_are_told_in_order(path: Seq<u8>, pieces: Seq<Seq<u8>>)
    requires
        pieces.len() > 0,
        forall|i: int| 0 <= i < pieces.len() ==> !(#[trigger] pieces[i]).contains(47u8),
        path == join_pieces(pieces, 47),
    ensures
        relative_path_error(path, false) == (if path.len() == 0 {
            Some(PathErrorView::Empty)
        } else if path[0] == 47 {
            Some(PathErrorView::Absolute { path })
        } else if !valid_utf8(path) {
            Some(PathErrorView::NotUtf8)
        } else if path.contains(0u8) {
            Some(PathErrorView::Nul)
        } else if pieces.contains(Seq::<u8>::empty()) || pieces.contains(seq![46u8])
            || pieces.contains(seq![46u8, 46u8]) {
            Some(PathErrorView::Unsafe { path })
        } else {
            None
        }),
{
    join_undone_by_split(pieces, SEPARATOR);
    let bad = pieces.contains(Seq::<u8>::empty()) || pieces.contains(seq![46u8])
        || pieces.contains(seq![46u8, 46u8]);
    if has_unsafe_part(path) {
        let i = choose|i: int|
            0 <= i < split(path, SEPARATOR).len() && #[trigger] unsafe_part(
                split(path, SEPARATOR)[i],
            );
        if pieces[i].len() == 0 {
            assert(pieces[i] =~= Seq::<u8>::empty());
        }
        assert(bad);
    }
    if bad {
        let part = if pieces.contains(Seq::<u8>::empty()) {
            Seq::<u8>::empty()
        } else if pieces.contains(seq![46u8]) {
            seq![46u8]
        } else {
            seq![46u8, 46u8]
        };
        let i = choose|i: int| 0 <= i < pieces.len() && pieces[i] == part;
        assert(unsafe_part(split(path, SEPARATOR)[i]));
    }
}

proof fn lemma_current_parts(parts: Seq<Seq<u8>>)
    requires
        parts.len() > 0,
    ensures
        part_components(parts) == seq![ComponentView::CurDir] <==> parts[0] == dot() && forall|
            i: int,
        |
            1 <= i < parts.len() ==> (#[trigger] parts[i]).len() == 0 || parts[i] == dot(),
        part_components(parts).len() == 0 ==> forall|i: int|
            0 <= i < parts.len() ==> (#[trigger] parts[i]).len() == 0 || i > 0 && parts[i] == dot(),
    decreases parts.len(),
{
    let fewer = parts.drop_last();
    let last = parts.len() - 1;
    let before = part_components(fewer);
    let all = part_components(parts);
    if parts.len() == 1 {
        assert(before =~= Seq::<ComponentView>::empty());
        assert(all.len() <= 1);
        if parts[0] == dot() {
            assert(all =~= seq![ComponentView::CurDir]);
        } else if all.len() == 1 {
            assert(all[0] != ComponentView::CurDir);
        }
    } else {
        lemma_current_parts(fewer);
        assert(fewer[0] == parts[0]);
        if parts[last].len() == 0 || parts[last] == dot() {
            assert(all == before);
            assert forall|i: int| 1 <= i < parts.len() && part_components(fewer)
                == seq![ComponentView::CurDir] implies (#[trigger] parts[i]).len() == 0 || parts[i]
                == dot() by {
                if i < last {
                    assert(fewer[i] == parts[i]);
                }
            }
            if forall|i: int|
                1 <= i < parts.len() ==> (#[trigger] parts[i]).len() == 0 || parts[i] == dot() {
                assert forall|i: int| 1 <= i < fewer.len() implies (#[trigger] fewer[i]).len() == 0
                    || fewer[i] == dot() by {
                    assert(parts[i] == fewer[i]);
                }
            }
            if all.len() == 0 {
                assert forall|i: int| 0 <= i < parts.len() implies (#[trigger] parts[i]).len() == 0
                    || i > 0 && parts[i] == dot() by {
                    if i < last {
                        assert(fewer[i] == parts[i]);
                    }
                }
            }
        } else {
            assert(all.len() == before.len() + 1);
            assert(all.last() != ComponentView::CurDir);
            assert(all != seq![ComponentView::CurDir]) by {
                if all == seq![ComponentView::CurDir] {
                    assert(all.last() == ComponentView::CurDir);
                }
            }
            assert(!(parts[last].len() == 0 || parts[last] == dot()));
        }
    }
}

/// Where the current directory is allowed, it is accepted however it is written: a
/// first piece `.`, and behind it nothing but pieces that are empty or `.`. Of every
/// other path the same is said as where it is not allowed.
pub proof fn current_directory_is_accepted_where_allowed(path: Seq<u8>, pieces: Seq<Seq<u8>>)
    requires
        pieces.len() > 0,
        forall|i: int| 0 <= i < pieces.len() ==> !(#[trigger] pieces[i]).contains(47u8),
        path == join_pieces(pieces, 47),
    ensures
        ({
            let current = pieces[0] == seq![46u8] && forall|i: int|
                1 <= i < pieces.len() ==> (#[trigger] pieces[i]).len() == 0 || pieces[i]
                    == seq![46u8];
            &&& is_current(path) == current
            &&& relative_path_error(path, true) == (if current {
                None
            } else {
                relative_path_error(path, false)
            })
            &&& current ==> relative_path_error(path, false) is Some
        }),
{
    join_undone_by_split(pieces, SEPARATOR);
    lemma_current_parts(pieces);
    let steps = part_components(pieces);
    if is_absolute(path) {
        assert((seq![ComponentView::RootDir] + steps)[0] == ComponentView::RootDir);
        let rest = path.skip(1);
        assert(path =~= Seq::<u8>::empty().push(SEPARATOR) + rest);
        lemma_split_concat(Seq::empty(), rest, SEPARATOR);
        assert(pieces[0] =~= Seq::<u8>::empty());
    }
    if pieces[0] == seq![46u8] {
        assert(unsafe_part(split(path, SEPARATOR)[0]));
    }
}

/// A file name is acceptable exactly where it is not empty, `.` or `..`, and holds
/// neither a slash nor a NUL.
pub proof fn accepted_file_names(name: Seq<char>)
    ensures
        file_name_error(name) is None <==> {
            let bytes = encode_utf8(name);
            &&& name.len() > 0
            &&& bytes != seq![46u8]
            &&& bytes != seq![46u8, 46u8]
            &&& !bytes.contains(47u8)
            &&& !bytes.contains(0u8)
        },
        name.len() == 0 ==> file_name_error(name) == Some(ErrorView::EmptyFileName),
        name.len() > 0 && relative_path_error(encode_utf8(name), false) is Some
            ==> file_name_error(name) == Some(
            ErrorView::Path { cause: relative_path_error(encode_utf8(name), false)->0 },
        ),
        name.len() > 0 && relative_path_error(encode_utf8(name), false) is None && encode_utf8(
            name,
        ).contains(47u8) ==> file_name_error(name) == Some(ErrorView::NotSingleName { name }),
{
    let bytes = encode_utf8(name);
    encode_utf8_valid_utf8(name);
    encode_utf8_decode_utf8(name);
    if name.len() > 0 && bytes.len() == 0 {
        encode_utf8_decode_utf8(Seq::<char>::empty());
        assert(encode_utf8(Seq::<char>::empty()) =~= Seq::<u8>::empty());
        assert(bytes =~= Seq::<u8>::empty());
    }
    if relative_path_error(bytes, false) is None {
        lemma_parts_of_accepted(bytes);
        lemma_names_join(Seq::empty(), bytes);
        let names = split(bytes, SEPARATOR);
        if names.len() == 1 {
            assert(bytes == names[0]);
        }
        if !bytes.contains(47u8) {
            lemma_split_single(bytes, SEPARATOR);
        }
        assert(path_components(bytes).len() == names.len());
        if bytes.contains(47u8) && names.len() == 1 {
            assert(names[0].contains(47u8));
        }
    }
    if name.len() > 0 && bytes != seq![46u8] && bytes != seq![46u8, 46u8] && !bytes.contains(47u8)
        && !bytes.contains(0u8) {
        let names = seq![bytes];
        assert(join_pieces(names, SEPARATOR) == bytes);
        lemma_ordinary_names(names);
        assert(path_components(bytes).len() == 1);
    }
}

/// A relative path is put behind its base with one slash between them, and an absolute
/// one takes the place of its base.
pub proof fn paths_are_joined_with_one_slash(base: Seq<u8>, path: Seq<u8>)
    ensures
        path.len() > 0 && path[0] == 47 ==> path_join(base, path) == path,
        !(path.len() > 0 && path[0] == 47) ==> {
            &&& base.len() == 0 ==> path_join(base, path) == path
            &&& base.len() > 0 && base.last() == 47 ==> path_join(base, path) == base + path
            &&& base.len() > 0 && base.last() != 47 ==> path_join(base, path) == base + seq![47u8]
                + path
        },
{
    assert(Seq::<u8>::empty() + path =~= path);
    if base.len() == 0 {
        assert(base + path =~= path);
    }
    assert(base.push(SEPARATOR) + path =~= base + seq![47u8] + path);
}

/// A path without its first steps is its other names with slashes between them; where
/// it has no more names than that, nothing is left.
pub proof fn stripping_leaves_the_last_names(names: Seq<Seq<u8>>, count: nat)
    requires
        names.len() > 0,
        forall|i: int|
            0 <= i < names.len() ==> {
                &&& (#[trigger] names[i]).len() > 0
                &&& names[i] != seq![46u8]
                &&& names[i] != seq![46u8, 46u8]
                &&& !names[i].contains(47u8)
            },
    ensures
        stripped_path(join_pieces(names, 47), count) == (if names.len() <= count {
            None
        } else {
            Some(join_pieces(names.skip(count as int), 47))
        }),
{
    lemma_ordinary_names(names);
    if count < names.len() {
        assert(named_steps(names).skip(count as int) =~= named_steps(names.skip(count as int)));
        lemma_named_steps_names(names.skip(count as int));
    }
}

/// What the pieces of a path are as steps. A first piece `.` is the current directory;
/// behind a path, a piece that is empty or `.` adds no step, `..` adds a step up, and
/// any other piece adds its name.
pub proof fn pieces_are_steps(path: Seq<u8>, piece: Seq<u8>)
    requires
        !piece.contains(47u8),
    ensures
        path_components(piece) == (if piece.len() == 0 {
            Seq::empty()
        } else if piece == seq![46u8] {
            seq![ComponentView::CurDir]
        } else if piece == seq![46u8, 46u8] {
            seq![ComponentView::ParentDir]
        } else {
            seq![ComponentView::Normal(piece)]
        }),
        path_components(seq![47u8]) == seq![ComponentView::RootDir],
        path.len() > 0 ==> path_components(path + seq![47u8] + piece) == (if piece.len() == 0
            || piece == seq![46u8] {
            path_components(path)
        } else if piece == seq![46u8, 46u8] {
            path_components(path).push(ComponentView::ParentDir)
        } else {
            path_components(path).push(ComponentView::Normal(piece))
        }),
{
    lemma_split_single(piece, SEPARATOR);
    assert(seq![piece].drop_last() =~= Seq::<Seq<u8>>::empty());
    assert(!is_absolute(piece)) by {
        if is_absolute(piece) {
            assert(piece.contains(piece[0]));
        }
    }
    assert(part_components(Seq::<Seq<u8>>::empty()) =~= Seq::<ComponentView>::empty());
    let nothing = Seq::<u8>::empty();
    lemma_split_concat(nothing, nothing, SEPARATOR);
    assert(nothing.push(SEPARATOR) + nothing =~= seq![47u8]);
    assert(split(nothing, SEPARATOR) =~= seq![nothing]);
    let two = seq![nothing] + seq![nothing];
    assert(two.drop_last() =~= seq![nothing]);
    assert(seq![nothing].drop_last() =~= Seq::<Seq<u8>>::empty());
    assert(part_components(two) =~= Seq::<ComponentView>::empty()) by {
        reveal_with_fuel(part_components, 3);
    }
    assert(path_components(seq![47u8]) =~= seq![ComponentView::RootDir]);
    assert(path_components(piece) =~= (if piece.len() == 0 {
        Seq::empty()
    } else if piece == seq![46u8] {
        seq![ComponentView::CurDir]
    } else if piece == seq![46u8, 46u8] {
        seq![ComponentView::ParentDir]
    } else {
        seq![ComponentView::Normal(piece)]
    })) by {
        reveal_with_fuel(part_components, 2);
    }
    if path.len() > 0 {
        let whole = path + seq![47u8] + piece;
        assert(whole =~= path.push(SEPARATOR) + piece);
        lemma_split_concat(path, piece, SEPARATOR);
        lemma_split_nonempty(path, SEPARATOR);
        let parts = split(path, SEPARATOR);
        assert(parts + seq![piece] =~= parts.push(piece));
        assert(parts.push(piece).drop_last() =~= parts);
        assert(whole[0] == path[0]);
        let added = if piece.len() == 0 || piece == seq![46u8] {
            path_components(path)
        } else if piece == seq![46u8, 46u8] {
            path_components(path).push(ComponentView::ParentDir)
        } else {
            path_components(path).push(ComponentView::Normal(piece))
        };
        assert(path_components(whole) =~= added);
    }
}

/// The mathematical form of a list of steps has each step, in their places.
pub proof fn steps_keep_their_order(steps: Seq<Component>, index: int)
    ensures
        component_views(steps).len() == steps.len(),
        0 <= index < steps.len() ==> match steps[index] {
            Component::RootDir => component_views(steps)[index] is RootDir,
            Component::CurDir => component_views(steps)[index] is CurDir,
            Component::ParentDir => component_views(steps)[index] is ParentDir,
            Component::Normal(name) => component_views(steps)[index] == ComponentView::Normal(
                name@,
            ),
        },
{
}

} // verus!
