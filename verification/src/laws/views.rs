//! What the values of the library stand for.

use vstd::prelude::*;

use crate::accessor::read_at::ReadAt;
use crate::accessor::sync::FileContents;
use crate::decoder::contents::Contents;
use crate::decoder::read::{InputView, SeqRead};
use crate::decoder::sync::StandardReader;
use crate::encoder::sync::StandardWriter;
use crate::encoder::write::SeqWrite;
use crate::entry::{Entry, EntryKind, KindView};
use crate::format::xattr::XAttrView;
use crate::format::Entry as Stat;
use crate::metadata::{Acl, AclView, Metadata, MetadataView};
use crate::variant::PxarVariant;

verus! {

/// Metadata stand for all that they hold.
pub proof fn law_metadata_view(m: Metadata, acl: Acl, i: int)
    ensures
        m@.stat == m.stat,
        m@.xattrs.len() == m.xattrs@.len(),
        0 <= i < m.xattrs@.len() ==> m@.xattrs[i] == m.xattrs@[i]@,
        m@.acl == m.acl@,
        m.fcaps matches Some(f) ==> m@.fcaps == Some(f.data@),
        m.fcaps is None ==> m@.fcaps is None,
        m@.quota_project_id == m.quota_project_id,
        acl@.users == acl.users@,
        acl@.groups == acl.groups@,
        acl@.group_obj == acl.group_obj,
        acl@.default == acl.default,
        acl@.default_users == acl.default_users@,
        acl@.default_groups == acl.default_groups@,
{
}

/// Metadata of nothing but stat data have nothing else.
pub proof fn law_plain_metadata(stat: Stat)
    ensures
        ({
            let m = MetadataView::from_stat(stat);
            &&& m.stat == stat
            &&& m.xattrs == Seq::<XAttrView>::empty()
            &&& m.acl.users.len() == 0
            &&& m.acl.groups.len() == 0
            &&& m.acl.group_obj is None
            &&& m.acl.default is None
            &&& m.acl.default_users.len() == 0
            &&& m.acl.default_groups.len() == 0
            &&& m.fcaps is None
            &&& m.quota_project_id is None
        }),
        ({
            let stat = MetadataView::empty().stat;
            stat.mode == 0 && stat.flags == 0 && stat.uid == 0 && stat.gid == 0 && stat.mtime.secs
                == 0 && stat.mtime.nanos == 0
        }),
        MetadataView::empty() == MetadataView::from_stat(MetadataView::empty().stat),
        AclView::empty() == MetadataView::from_stat(stat).acl,
{
}

/// Entries stand for their path, their metadata and their kind, with all that belongs to it.
pub proof fn law_entry_view(entry: Entry)
    ensures
        entry@.path == entry.path@,
        entry@.metadata == entry.metadata@,
        entry@.kind == match entry.kind {
            EntryKind::Symlink(link) => KindView::Symlink(link.data@),
            EntryKind::Hardlink(link) => KindView::Hardlink {
                offset: link.offset,
                data: link.data@,
            },
            EntryKind::Device(device) => KindView::Device(device),
            EntryKind::Socket => KindView::Socket,
            EntryKind::Fifo => KindView::Fifo,
            EntryKind::File { size, offset } => KindView::File { size, position: offset },
            EntryKind::Directory => KindView::Directory,
            EntryKind::GoodbyeTable => KindView::GoodbyeTable,
        },
{
}

/// What the input of a decoder still holds.
pub open spec fn input_of<'a, T: SeqRead>(contents: &Contents<'a, T>) -> InputView {
    contents.input.stream()
}

/// The contents of a file are read from where the decoder's input stands, up to the end of the file:
/// all that is left of the file, where the input holds that much.
pub proof fn law_contents_stream<'a, T: SeqRead>(contents: Contents<'a, T>)
    requires
        contents.consumed() <= contents.len,
    ensures
        ({
            let left = contents.len - contents.consumed();
            let all = input_of(&contents);
            &&& contents.stream().offset == all.offset
            &&& left <= all.unread.len() ==> contents.stream().unread == all.unread.take(left)
            &&& left > all.unread.len() ==> contents.stream().unread == all.unread
        }),
{
    let all = input_of(&contents).unread;
    assert(all.take(all.len() as int) =~= all);
}

/// Bytes in memory are read and written as they are.
pub proof fn law_bytes<'a>(
    reader: StandardReader<&'a [u8]>,
    writer: StandardWriter<Vec<u8>>,
    bytes: &'a [u8],
)
    ensures
        reader.stream().unread == reader.inner@,
        reader.stream().offset is None,
        reader.infallible(),
        writer.written() == writer.inner@,
        writer.infallible(),
        bytes.contents() == bytes@,
        ReadAt::infallible(&bytes),
{
}

/// An archive in one stream has no payload stream, and one in two streams has both.
pub proof fn law_variants<T, P>(archive: T, payload: P)
    ensures
        PxarVariant::<T, P>::Unified(archive).archive_stream() == archive,
        PxarVariant::<T, P>::Unified(archive).payload_stream() is None,
        PxarVariant::Split(archive, payload).archive_stream() == archive,
        PxarVariant::Split(archive, payload).payload_stream() == Some(payload),
{
}

/// The contents of a file in an archive are the bytes of its range, and are read on from where
/// reading stopped.
pub proof fn law_file_contents<T: ReadAt>(contents: FileContents<T>, i: int)
    requires
        contents.inner.range.start <= contents.inner.range.end <= contents.inner.input.contents().len(),
        contents.at <= contents.inner.range.end - contents.inner.range.start,
        0 <= i < contents.inner.range.end - contents.inner.range.start - contents.at,
    ensures
        contents.contents().len() == contents.inner.range.end - contents.inner.range.start,
        contents.contents()[contents.at + i] == contents.inner.input.contents()[
            contents.inner.range.start + contents.at + i
        ],
        contents.stream().unread.len() == contents.contents().len() - contents.at,
        contents.stream().unread[i] == contents.contents()[contents.at + i],
{
}

} // verus!
