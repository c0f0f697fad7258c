//! Looking up paths in an encoded archive.

use vstd::prelude::*;

use crate::accessor::model::{directory_at, DirectoryView, FileView};
use crate::encoder::model::{new_encoder, EncoderView};
use crate::entry::{EntryView, KindView};
use crate::errors::Error;
use crate::format::goodbye::GOODBYE_ITEM_SIZE;
use crate::laws::items::readable_xattrs;
use crate::laws::lookup::{
    directory_of, end_of, holds_directory, law_directory_itself, law_enter_directory, law_lookup,
    law_open_directory, law_root_directory, lemma_members, lemma_starts, members, Member, Node,
};
use crate::laws::tables::{add_directory, items_for, lemma_files_listed};
use crate::laws::tree::{
    encode_archive, encode_files, enter, lemma_finish_written, readable, Files,
};
use crate::metadata::MetadataView;
use crate::path::{components_of, inner_components, joined, lemma_inner_names, ComponentView};
use crate::util::SLASH;

verus! {

/// The number of files in a directory.
pub open spec fn file_count(files: Files) -> nat
    decreases files,
{
    match files {
        Files::Nil => 0,
        Files::Leaf { next, .. } => 1 + file_count(*next),
        Files::Directory { next, .. } => 1 + file_count(*next),
    }
}

/// The goodbye table of a directory with these files, and those of all directories further down,
/// fit into memory.
pub open spec fn tables_fit(files: Files) -> bool {
    file_count(files) * GOODBYE_ITEM_SIZE <= usize::MAX && inner_tables_fit(files)
}

/// The goodbye tables of the directories among these files, and of those further down, fit into
/// memory.
pub open spec fn inner_tables_fit(files: Files) -> bool
    decreases files,
{
    match files {
        Files::Nil => true,
        Files::Leaf { next, .. } => inner_tables_fit(*next),
        Files::Directory { files, next, .. } => {
            &&& file_count(*files) * GOODBYE_ITEM_SIZE <= usize::MAX
            &&& inner_tables_fit(*files)
            &&& inner_tables_fit(*next)
        },
    }
}

/// A directory has a file with the given name.
pub open spec fn has_member(e: EncoderView, files: Files, name: Seq<u8>) -> bool {
    exists|k: int| 0 <= k < members(e, files).len() && (#[trigger] members(e, files)[k]).name == name
}

/// What comes of going from a directory along `names`, of which there is at least one: nothing
/// where there is no file with the first name, or else what comes of going on from there.
pub open spec fn resolves(
    archive: Seq<u8>,
    e: EncoderView,
    files: Files,
    dir: Seq<u8>,
    names: Seq<ComponentView>,
    r: Result<Option<FileView>, Error>,
) -> bool
    decreases names.len(), 0int,
{
    if names.len() == 0 {
        false
    } else {
        match names[0] {
            ComponentView::Normal(name) => {
                ||| !has_member(e, files, name) && r == Ok::<Option<FileView>, Error>(None)
                ||| exists|k: int|
                    0 <= k < members(e, files).len() && (#[trigger] members(e, files)[k]).name
                        == name && continues(archive, members(e, files)[k], dir, names.skip(1), r)
            },
            _ => r == Err::<Option<FileView>, Error>(Error::ParentDirectory),
        }
    }
}

/// What comes of going from a file along `names`: the file itself where there is no name left. It
/// has to be a directory otherwise, and there is no way back up.
pub open spec fn continues(
    archive: Seq<u8>,
    m: Member,
    dir: Seq<u8>,
    names: Seq<ComponentView>,
    r: Result<Option<FileView>, Error>,
) -> bool
    decreases names.len(), 1int,
{
    if names.len() == 0 {
        r == Ok::<_, Error>(Some(m.file(archive, dir)))
    } else if names[0] is ParentDir {
        r == Err::<Option<FileView>, Error>(Error::ParentDirectory)
    } else {
        match m.node {
            Node::Leaf(_) => r == Err::<Option<FileView>, Error>(Error::EnterNonDirectory),
            Node::Directory { metadata, files } => resolves(
                archive,
                enter(m.before, m.name, metadata)->Ok_0,
                files,
                joined(dir, m.name),
                names,
                r,
            ),
        }
    }
}

/// Each is a name or a way up.
spec fn inner_names(names: Seq<ComponentView>) -> bool {
    forall|i: int|
        0 <= i < names.len() ==> match #[trigger] names[i] {
            ComponentView::Normal(name) => components_of(name) == seq![ComponentView::Normal(name)],
            c => c is ParentDir,
        }
}

proof fn lemma_skip_name(names: Seq<ComponentView>)
    requires
        inner_names(names),
        names.len() > 0,
    ensures
        inner_names(names.skip(1)),
{
    assert forall|i: int| 0 <= i < names.skip(1).len() implies match #[trigger] names.skip(1)[i] {
        ComponentView::Normal(name) => components_of(name) == seq![ComponentView::Normal(name)],
        c => c is ParentDir,
    } by {
        assert(names.skip(1)[i] == names[i + 1]);
    }
}

/// The tables of the directories among the files of a directory fit.
proof fn lemma_member_fits(e: EncoderView, files: Files)
    requires
        inner_tables_fit(files),
    ensures
        members(e, files).len() == file_count(files),
        items_for(e, files).len() == file_count(files),
        forall|k: int|
            0 <= k < members(e, files).len() ==> ((#[trigger] members(e, files)[k]).node matches
                Node::Directory { files: inner, .. } ==> tables_fit(inner)),
    decreases files,
{
    match files {
        Files::Nil => {},
        Files::Leaf { name, leaf, next } => {
            let f = leaf.encode(e, name)->Ok_0;
            lemma_member_fits(f, *next);
            assert forall|k: int| 0 <= k < members(e, files).len() implies ((#[trigger] members(
                e,
                files,
            )[k]).node matches Node::Directory { files: inner, .. } ==> tables_fit(inner)) by {
                if k > 0 {
                    assert(members(e, files)[k] == members(f, *next)[k - 1]);
                }
            }
        },
        Files::Directory { name, metadata, files: inner, next } => {
            let f = add_directory(e, name, metadata, *inner);
            lemma_member_fits(f, *next);
            assert forall|k: int| 0 <= k < members(e, files).len() implies ((#[trigger] members(
                e,
                files,
            )[k]).node matches Node::Directory { files: inner, .. } ==> tables_fit(inner)) by {
                if k > 0 {
                    assert(members(e, files)[k] == members(f, *next)[k - 1]);
                }
            }
        },
    }
}

/// The outcome of looking up names, the first of them in `dir`.
spec fn looked_up(top: DirectoryView, dir: DirectoryView, names: Seq<ComponentView>) -> Result<
    Option<FileView>,
    Error,
> {
    match dir.lookup_component(names[0]->Normal_0) {
        Err(e) => Err(e),
        Ok(None) => Ok(None),
        Ok(Some(file)) => top.lookup_components(names.skip(1), false, Some(file)),
    }
}

proof fn lemma_from_directory(
    top: DirectoryView,
    archive: Seq<u8>,
    e: EncoderView,
    metadata: MetadataView,
    files: Files,
    path: Seq<u8>,
    names: Seq<ComponentView>,
)
    requires
        holds_directory(archive, e, metadata, files),
        inner_tables_fit(files),
        inner_names(names),
        names.len() > 0,
        names[0] is Normal,
    ensures
        resolves(
            archive,
            e,
            files,
            path,
            names,
            looked_up(top, directory_of(archive, e, files, path), names),
        ),
    decreases names.len(), 0int,
{
    let name = names[0]->Normal_0;
    let dir = directory_of(archive, e, files, path);
    let r = looked_up(top, dir, names);
    lemma_skip_name(names);
    law_lookup(archive, e, metadata, files, path, name);
    if let Ok(Some(file)) = dir.lookup_component(name) {
        let k = choose|i: int|
            0 <= i < members(e, files).len() && members(e, files)[i].name == name && file == (
            #[trigger] members(e, files)[i]).file(archive, path);
        let m = members(e, files)[k];
        let z = encode_files(e, files)->Ok_0;
        lemma_files_listed(e, files);
        lemma_finish_written(z);
        lemma_starts(archive, z.archive, z.settled().goodbye_item().wire());
        lemma_members(archive, e, files);
        lemma_member_fits(e, files);
        lemma_from_file(top, archive, m, path, names.skip(1));
        assert(continues(archive, members(e, files)[k], path, names.skip(1), r));
    }
}

proof fn lemma_from_file(
    top: DirectoryView,
    archive: Seq<u8>,
    m: Member,
    dir: Seq<u8>,
    names: Seq<ComponentView>,
)
    requires
        m.stored(archive),
        m.node matches Node::Directory { files, .. } ==> tables_fit(files),
        inner_names(names),
    ensures
        continues(
            archive,
            m,
            dir,
            names,
            top.lookup_components(names, false, Some(m.file(archive, dir))),
        ),
    decreases names.len(), 1int,
{
    if names.len() > 0 && names[0] is Normal {
        if let Node::Directory { metadata, files } = m.node {
            let inner = enter(m.before, m.name, metadata)->Ok_0;
            lemma_member_fits(inner, files);
            law_enter_directory(archive, m, dir);
            lemma_from_directory(top, archive, inner, metadata, files, joined(dir, m.name), names);
        } else {
            law_enter_directory(archive, m, dir);
        }
    }
}

/// Looking up a path in an encoded directory follows its names from directory to directory. It
/// does not matter whether the path is absolute: the directory counts as the root. A path without
/// names leads to the directory itself, and the empty one to nothing.
pub proof fn law_lookup_in_directory(
    archive: Seq<u8>,
    e: EncoderView,
    metadata: MetadataView,
    files: Files,
    dir: Seq<u8>,
    path: Seq<u8>,
)
    requires
        holds_directory(archive, e, metadata, files),
        inner_tables_fit(files),
    ensures
        ({
            let r = directory_of(archive, e, files, dir).lookup(path);
            if inner_components(path).len() > 0 {
                resolves(archive, e, files, dir, inner_components(path), r)
            } else if components_of(path).len() > 0 {
                r == Ok::<_, Error>(
                    Some(
                        FileView {
                            archive,
                            entry: EntryView { path: dir, metadata, kind: KindView::Directory },
                            start: e.last().entry_offset,
                            end: end_of(e, files),
                            filename_offset: None,
                        },
                    ),
                )
            } else {
                r == Ok::<Option<FileView>, Error>(None)
            }
        }),
{
    let top = directory_of(archive, e, files, dir);
    let names = inner_components(path);
    let all = components_of(path);
    lemma_inner_names(path);
    law_directory_itself(archive, e, metadata, files, dir);
    law_open_directory(archive, e, metadata, files, dir);
    if names.len() > 0 {
        assert(names[0] is Normal || names[0] is ParentDir);
        if names[0] is Normal {
            lemma_from_directory(top, archive, e, metadata, files, dir, names);
        }
        if all.len() == names.len() {
            assert(all =~= names);
        } else {
            assert(all.skip(1) =~= names);
            assert(all[0] is RootDir || all[0] is CurDir);
            let itself = top.lookup_self()->Ok_0;
            assert(top.lookup(path) == top.lookup_components(names, false, Some(itself)));
            assert(itself.enter_directory() == Ok::<_, Error>(top));
        }
    } else if all.len() > 0 {
        assert(all.skip(1) =~= names);
        assert(all[0] is RootDir || all[0] is CurDir);
    }
}

/// Looking up a path in the root directory of an encoded archive leads to the file that was added
/// under that path.
pub proof fn law_lookup_path(metadata: MetadataView, files: Files, path: Seq<u8>)
    requires
        encode_archive(metadata, files) is Ok,
        readable_xattrs(metadata.xattrs),
        readable(files),
        tables_fit(files),
        inner_components(path).len() > 0,
    ensures
        ({
            let archive = encode_archive(metadata, files)->Ok_0.archive;
            let e = new_encoder(Seq::empty(), None, metadata, None)->Ok_0;
            &&& directory_at(archive, archive.len() as u64, seq![SLASH]) matches Ok(root)
            &&& resolves(
                archive,
                e,
                files,
                seq![SLASH],
                inner_components(path),
                root.lookup(path),
            )
        }),
{
    let archive = encode_archive(metadata, files)->Ok_0.archive;
    let e = new_encoder(Seq::empty(), None, metadata, None)->Ok_0;
    lemma_member_fits(e, files);
    law_root_directory(metadata, files);
    law_open_directory(archive, e, metadata, files, seq![SLASH]);
    law_lookup_in_directory(archive, e, metadata, files, seq![SLASH], path);
}

} // verus!
