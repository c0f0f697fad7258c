//! Blocking `pxar` random access handling.

use std::ops::Range;
use std::sync::Arc;

use vstd::prelude::*;

use crate::accessor::adapter::SeqReadAtAdapter;
use crate::accessor::cache::Cache;
use crate::accessor::model::{
    directory_at, entry_in, frame_at, link_place, link_target, may_open, shared_table, CursorView,
    DirectoryView, FileView,
};
use crate::accessor::read_at::{clones_equal, ReadAt};
use crate::accessor::{
    AccessorImpl, DirEntryImpl, DirectoryImpl, EntryRangeInfo, FileContentsImpl, FileEntryImpl,
    ReadDirImpl,
};
use crate::binary_tree_array::hits;
use crate::decoder::model::DecoderView;
use crate::decoder::read::{seq_read_to_end, starts_to, InputView, SeqRead};
use crate::decoder::sync::Decoder;
use crate::entry::{Entry, EntryView};
use crate::errors::Error;
use crate::format::goodbye::{filename_hash, GOODBYE_ITEM_SIZE};
use crate::format::GoodbyeItem;
use crate::path::{components_of, ComponentView};
use crate::util::SLASH;

verus! {

/// Blocking `pxar` random-access decoder.
pub struct Accessor<T> {
    pub inner: AccessorImpl<T>,
}

impl<T: ReadAt> Accessor<T> {
    /// Create a *blocking* random-access decoder from an input implementing our internal read
    /// interface.
    pub fn new(input: T, size: u64) -> (r: Result<Self, Error>)
        ensures
            match r {
                Ok(this) => {
                    &&& size >= GOODBYE_ITEM_SIZE
                    &&& this.inner.input == input
                    &&& this.inner.size == size
                    &&& this.inner.caches.gbt_cache is None
                },
                Err(e) => e == Error::ArchiveTooSmall && size < GOODBYE_ITEM_SIZE,
            },
    {
        match AccessorImpl::new(input, size) {
            Ok(inner) => Ok(Accessor { inner }),
            Err(e) => Err(e),
        }
    }

    /// Open a directory handle to the root of the pxar archive.
    pub fn open_root_ref<'a>(&'a self) -> (r: Result<Directory<&'a T>, Error>)
        ensures
            match r {
                Ok(dir) => {
                    &&& dir.well_formed()
                    &&& *dir.inner.input == self.inner.input
                    &&& dir.inner.caches == self.inner.caches
                    &&& shared_table(*dir.inner.caches, dir.inner.goodbye_ofs, *dir.inner.table)
                    &&& may_open(
                        self.inner.input.contents(),
                        self.inner.size,
                        seq![SLASH],
                        *self.inner.caches,
                        Ok::<_, Error>(dir@),
                    )
                    &&& frame_at(
                        self.inner.input.contents(),
                        self.inner.size,
                        seq![SLASH],
                    ) == Ok::<_, Error>((DirectoryView { table: Seq::empty(), ..dir@ }))
                    &&& self.inner.caches.gbt_cache is None ==> directory_at(
                        self.inner.input.contents(),
                        self.inner.size,
                        seq![SLASH],
                    ) == Ok::<_, Error>(dir@)
                },
                Err(Error::Io(_)) => !self.inner.input.infallible(),
                Err(e) => {
                    &&& directory_at(
                        self.inner.input.contents(),
                        self.inner.size,
                        seq![SLASH],
                    ) == Err::<DirectoryView, Error>(e)
                    &&& may_open(
                        self.inner.input.contents(),
                        self.inner.size,
                        seq![SLASH],
                        *self.inner.caches,
                        Err::<DirectoryView, Error>(e),
                    )
                },
            },
    {
        match self.inner.open_root_ref() {
            Ok(inner) => Ok(Directory { inner }),
            Err(e) => Err(e),
        }
    }

    /// Use a cache for goodbye tables, or stop using one.
    pub fn set_goodbye_table_cache(
        &mut self,
        cache: Option<Arc<dyn Cache<u64, Vec<GoodbyeItem>>>>,
    )
        ensures
            final(self).inner.input == old(self).inner.input,
            final(self).inner.size == old(self).inner.size,
            final(self).inner.caches.gbt_cache == cache,
    {
        self.inner.set_goodbye_table_cache(cache)
    }

    /// Get the full archive size we're allowed to access.
    pub fn size(&self) -> (r: u64)
        ensures
            r == self.inner.size,
    {
        self.inner.size()
    }
}

impl<T: Clone + ReadAt> Accessor<T> {
    /// Open the root directory.
    pub fn open_root(&self) -> (r: Result<Directory<T>, Error>)
        requires
            clones_equal::<T>(),
        ensures
            match r {
                Ok(dir) => {
                    &&& dir.well_formed()
                    &&& dir.inner.input == self.inner.input
                    &&& dir.inner.caches == self.inner.caches
                    &&& shared_table(*dir.inner.caches, dir.inner.goodbye_ofs, *dir.inner.table)
                    &&& may_open(
                        self.inner.input.contents(),
                        self.inner.size,
                        seq![SLASH],
                        *self.inner.caches,
                        Ok::<_, Error>(dir@),
                    )
                    &&& frame_at(
                        self.inner.input.contents(),
                        self.inner.size,
                        seq![SLASH],
                    ) == Ok::<_, Error>((DirectoryView { table: Seq::empty(), ..dir@ }))
                    &&& self.inner.caches.gbt_cache is None ==> directory_at(
                        self.inner.input.contents(),
                        self.inner.size,
                        seq![SLASH],
                    ) == Ok::<_, Error>(dir@)
                },
                Err(Error::Io(_)) => !self.inner.input.infallible(),
                Err(e) => {
                    &&& directory_at(
                        self.inner.input.contents(),
                        self.inner.size,
                        seq![SLASH],
                    ) == Err::<DirectoryView, Error>(e)
                    &&& may_open(
                        self.inner.input.contents(),
                        self.inner.size,
                        seq![SLASH],
                        *self.inner.caches,
                        Err::<DirectoryView, Error>(e),
                    )
                },
            },
    {
        match self.inner.open_root() {
            Ok(inner) => Ok(Directory { inner }),
            Err(e) => Err(e),
        }
    }

    /// Allow opening a directory at a specified offset.
    ///
    /// This should only be used with offsets known to point to the end of a directory, otherwise
    /// this usually fails, unless the data otherwise happens to look like a valid directory.
    pub fn open_dir_at_end(&self, offset: u64) -> (r: Result<Directory<T>, Error>)
        requires
            clones_equal::<T>(),
        ensures
            match r {
                Ok(dir) => {
                    &&& dir.well_formed()
                    &&& dir.inner.input == self.inner.input
                    &&& dir.inner.caches == self.inner.caches
                    &&& shared_table(*dir.inner.caches, dir.inner.goodbye_ofs, *dir.inner.table)
                    &&& may_open(
                        self.inner.input.contents(),
                        offset,
                        seq![SLASH],
                        *self.inner.caches,
                        Ok::<_, Error>(dir@),
                    )
                    &&& frame_at(
                        self.inner.input.contents(),
                        offset,
                        seq![SLASH],
                    ) == Ok::<_, Error>((DirectoryView { table: Seq::empty(), ..dir@ }))
                    &&& self.inner.caches.gbt_cache is None ==> directory_at(
                        self.inner.input.contents(),
                        offset,
                        seq![SLASH],
                    ) == Ok::<_, Error>(dir@)
                },
                Err(Error::Io(_)) => !self.inner.input.infallible(),
                Err(e) => {
                    &&& directory_at(
                        self.inner.input.contents(),
                        offset,
                        seq![SLASH],
                    ) == Err::<DirectoryView, Error>(e)
                    &&& may_open(
                        self.inner.input.contents(),
                        offset,
                        seq![SLASH],
                        *self.inner.caches,
                        Err::<DirectoryView, Error>(e),
                    )
                },
            },
    {
        match self.inner.open_dir_at_end(offset) {
            Ok(inner) => Ok(Directory { inner }),
            Err(e) => Err(e),
        }
    }

    /// Allow opening a regular file from a specified range.
    ///
    /// Should only be used with `entry_range_info`s originating from the same archive, otherwise
    /// the result will likely fail (or contain unexpected data).
    pub fn open_file_at_range(&self, entry_range_info: &EntryRangeInfo) -> (r: Result<
        FileEntry<T>,
        Error,
    >)
        requires
            clones_equal::<T>(),
            entry_range_info.well_formed(),
        ensures
            ({
                let expected = entry_in(
                    self.inner.input.contents(),
                    entry_range_info.entry_range.start,
                    entry_range_info.entry_range.end,
                    Seq::empty(),
                );
                match r {
                    Ok(file) => {
                        &&& file.inner.input == self.inner.input
                        &&& file.inner.caches == self.inner.caches
                        &&& file.inner.entry_range_info == *entry_range_info
                        &&& expected matches Ok((_, entry)) && entry == file.inner.entry@
                    },
                    Err(Error::Io(_)) => !self.inner.input.infallible(),
                    Err(e) => expected == Err::<(DecoderView, EntryView), Error>(e),
                }
            }),
    {
        match self.inner.open_file_at_range(entry_range_info) {
            Ok(inner) => Ok(FileEntry { inner }),
            Err(e) => Err(e),
        }
    }

    /// Allow opening arbitrary contents from a specific range.
    ///
    /// This will provide a reader over an arbitrary range of the archive file, so unless this
    /// comes from a actual file entry data, the contents might not make much sense.
    pub fn open_contents_at_range(&self, range: Range<u64>) -> (r: FileContents<T>)
        requires
            clones_equal::<T>(),
        ensures
            r.inner.input == self.inner.input,
            r.inner.range == range,
            r.at == 0,
    {
        FileContents { inner: self.inner.open_contents_at_range(range), at: 0 }
    }

    /// Following a hardlink.
    pub fn follow_hardlink(&self, entry: &FileEntry<T>) -> (r: Result<
        FileEntry<T>,
        Error,
    >)
        requires
            clones_equal::<T>(),
        ensures
            match r {
                Ok(file) => {
                    &&& file.inner.input == self.inner.input
                    &&& file.inner.caches == self.inner.caches
                    &&& link_target(
                        self.inner.input.contents(),
                        self.inner.size,
                        entry@,
                    ) == Ok::<_, Error>(file@)
                },
                Err(Error::Io(_)) => !self.inner.input.infallible(),
                Err(e) => link_target(
                    self.inner.input.contents(),
                    self.inner.size,
                    entry@,
                ) == Err::<FileView, Error>(e),
            },
            link_place(entry@) matches Err(e) ==> r == Err::<FileEntry<T>, Error>(e),
    {
        match self.inner.follow_hardlink(&entry.inner) {
            Ok(inner) => Ok(FileEntry { inner }),
            Err(e) => Err(e),
        }
    }
}

/// A pxar directory entry. This provides blocking access to the contents of a directory.
pub struct Directory<T> {
    pub inner: DirectoryImpl<T>,
}

impl<T: Clone + ReadAt> Directory<T> {
    pub open spec fn view(&self) -> DirectoryView {
        self.inner.view()
    }

    pub open spec fn well_formed(&self) -> bool {
        self.inner.well_formed()
    }

    /// There is no cache to rely on.
    pub open spec fn uncached(&self) -> bool {
        self.inner.uncached()
    }

    /// Get a decoder for the directory contents.
    pub fn decode_full(&self) -> (r: Result<Decoder<SeqReadAtAdapter<T>>, Error>)
        requires
            clones_equal::<T>(),
            self.well_formed(),
        ensures
            match r {
                Ok(decoder) => {
                    &&& decoder.well_formed()
                    &&& decoder.infallible() == self.inner.input.infallible()
                    &&& self@.decode_full() == Ok::<_, Error>(decoder@)
                },
                Err(Error::Io(_)) => !self.inner.input.infallible(),
                Err(e) => self@.decode_full() == Err::<DecoderView, Error>(e),
            },
    {
        match self.inner.decode_full() {
            Ok(inner) => Ok(Decoder::from_impl(inner)),
            Err(e) => Err(e),
        }
    }

    /// Get a `FileEntry` referencing the directory itself.
    pub fn lookup_self(&self) -> (r: Result<FileEntry<T>, Error>)
        requires
            clones_equal::<T>(),
            self.well_formed(),
        ensures
            match r {
                Ok(file) => {
                    &&& file.inner.entry_range_info.well_formed()
                    &&& file.inner.input == self.inner.input
                    &&& file.inner.caches == self.inner.caches
                    &&& self@.lookup_self() == Ok::<_, Error>(file@)
                },
                Err(Error::Io(_)) => !self.inner.input.infallible(),
                Err(e) => self@.lookup_self() == Err::<FileView, Error>(e),
            },
    {
        match self.inner.lookup_self() {
            Ok(inner) => Ok(FileEntry { inner }),
            Err(e) => Err(e),
        }
    }

    /// Lookup an entry starting from this current directory.
    ///
    /// For convenience, this already resolves paths with multiple components.
    ///
    /// With a cache, what is found below a subdirectory rests on the tables that it hands out, for
    /// the place where the table of that subdirectory starts.
    pub fn lookup(&self, path: &[u8]) -> (r: Result<Option<FileEntry<T>>, Error>)
        requires
            clones_equal::<T>(),
            self.well_formed(),
        ensures
            match r {
                Ok(Some(file)) => {
                    &&& file.inner.entry_range_info.well_formed()
                    &&& file.inner.input == self.inner.input
                    &&& file.inner.caches == self.inner.caches
                },
                _ => true,
            },
            self.uncached() || components_of(path@).len() <= 1 ==> match r {
                Ok(file) => self@.lookup(path@) == Ok::<_, Error>(found_view(file)),
                Err(Error::Io(_)) => !self.inner.input.infallible(),
                Err(e) => self@.lookup(path@) == Err::<Option<FileView>, Error>(e),
            },
            match r {
                Ok(file) => self@.may_find(
                    *self.inner.caches,
                    path@,
                    Ok::<_, Error>(found_view(file)),
                ),
                Err(Error::Io(_)) => !self.inner.input.infallible(),
                Err(e) => self@.may_find(
                    *self.inner.caches,
                    path@,
                    Err::<Option<FileView>, Error>(e),
                ),
            },
            components_of(path@).len() == 0 ==> r matches Ok(None),
            components_of(path@).len() > 0 ==> match components_of(path@)[0] {
                ComponentView::Normal(name) => hits(self@.table, 0, filename_hash(name)).len() == 0
                    ==> r matches Ok(None),
                _ => true,
            },
            components_of(path@).len() > 0 && components_of(path@)[0] is ParentDir ==> r == Err::<
                Option<FileEntry<T>>,
                Error,
            >(Error::ParentDirectory),
    {
        match self.inner.lookup(path) {
            Ok(Some(inner)) => Ok(Some(FileEntry { inner })),
            Ok(None) => Ok(None),
            Err(e) => Err(e),
        }
    }

    /// Get an iterator over the directory's contents.
    pub fn read_dir<'a>(&'a self) -> (r: ReadDir<'a, T>)
        ensures
            *r.inner.dir == self.inner,
            r.inner.at == 0,
    {
        ReadDir { inner: self.inner.read_dir() }
    }

    /// Get the number of entries in this directory.
    pub fn entry_count(&self) -> (r: usize)
        ensures
            r == self@.table.len(),
    {
        self.inner.entry_count()
    }
}

/// A file entry in a directory, retrieved via the `lookup` method or from
/// `DirEntry::decode_entry`.
pub struct FileEntry<T> {
    pub inner: FileEntryImpl<T>,
}

/// What has been found, if anything.
pub open spec fn found_view<T: ReadAt>(file: Option<FileEntry<T>>) -> Option<FileView> {
    match file {
        Some(f) => Some(f@),
        None => None,
    }
}

impl<T: ReadAt> FileEntry<T> {
    pub open spec fn view(&self) -> FileView {
        self.inner.view()
    }
}

impl<T: Clone + ReadAt> FileEntry<T> {
    /// Get a handle to the subdirectory this file entry points to, if it is in fact a directory.
    pub fn enter_directory(&self) -> (r: Result<Directory<T>, Error>)
        requires
            clones_equal::<T>(),
        ensures
            match r {
                Ok(dir) => {
                    &&& dir.well_formed()
                    &&& dir.inner.input == self.inner.input
                    &&& dir.inner.caches == self.inner.caches
                    &&& shared_table(*dir.inner.caches, dir.inner.goodbye_ofs, *dir.inner.table)
                    &&& self@.entry.kind is Directory
                    &&& may_open(
                        self@.archive,
                        self@.end,
                        self@.entry.path,
                        *self.inner.caches,
                        Ok::<_, Error>(dir@),
                    )
                    &&& frame_at(self@.archive, self@.end, self@.entry.path) == Ok::<_, Error>(
                        (DirectoryView { table: Seq::empty(), ..dir@ }),
                    )
                    &&& self.inner.caches.gbt_cache is None ==> self@.enter_directory() == Ok::<
                        _,
                        Error,
                    >(dir@)
                },
                Err(Error::Io(_)) => !self.inner.input.infallible(),
                Err(e) => {
                    &&& self@.enter_directory() == Err::<DirectoryView, Error>(e)
                    &&& self@.entry.kind is Directory ==> may_open(
                        self@.archive,
                        self@.end,
                        self@.entry.path,
                        *self.inner.caches,
                        Err::<DirectoryView, Error>(e),
                    )
                },
            },
            !(self@.entry.kind is Directory) ==> r == Err::<Directory<T>, Error>(
                Error::EnterNonDirectory,
            ),
    {
        match self.inner.enter_directory() {
            Ok(inner) => Ok(Directory { inner }),
            Err(e) => Err(e),
        }
    }

    /// Get the place of the contents in the archive, for a regular file.
    pub fn content_range(&self) -> (r: Result<Option<Range<u64>>, Error>)
        ensures
            match r {
                Ok(Some(range)) => self@.content_range() == Ok::<_, Error>(
                    Some((range.start, range.end)),
                ),
                Ok(None) => self@.content_range() == Ok::<Option<(u64, u64)>, Error>(None),
                Err(e) => self@.content_range() == Err::<Option<(u64, u64)>, Error>(e),
            },
    {
        self.inner.content_range()
    }

    /// Get a reader for the contents of a regular file.
    pub fn contents(&self) -> (r: Result<FileContents<T>, Error>)
        requires
            clones_equal::<T>(),
        ensures
            match r {
                Ok(contents) => {
                    &&& contents.at == 0
                    &&& contents.inner.input == self.inner.input
                    &&& self@.content_range() == Ok::<_, Error>(
                        Some((contents.inner.range.start, contents.inner.range.end)),
                    )
                    &&& contents.inner.range.start <= contents.inner.range.end
                },
                Err(e) => match self@.content_range() {
                    Ok(None) => e == Error::NotAFile,
                    Err(e2) => e == e2,
                    Ok(Some(_)) => false,
                },
            },
    {
        match self.inner.contents() {
            Ok(inner) => Ok(FileContents { inner, at: 0 }),
            Err(e) => Err(e),
        }
    }

    pub fn into_entry(self) -> (r: Entry)
        ensures
            r == self.inner.entry,
    {
        self.inner.into_entry()
    }

    pub fn entry(&self) -> (r: &Entry)
        ensures
            *r == self.inner.entry,
    {
        self.inner.entry()
    }

    /// Exposed for raw by-offset access methods (use with `open_dir_at_end`).
    pub fn entry_range_info(&self) -> (r: &EntryRangeInfo)
        ensures
            *r == self.inner.entry_range_info,
    {
        self.inner.entry_range_info()
    }
}

/// An iterator over the contents of a `Directory`.
pub struct ReadDir<'a, T> {
    pub inner: ReadDirImpl<'a, T>,
}

impl<'a, T: Clone + ReadAt> ReadDir<'a, T> {
    pub open spec fn well_formed(&self) -> bool {
        self.inner.well_formed()
    }

    /// The directory.
    pub open spec fn directory(&self) -> DirectoryView {
        self.inner.dir.view()
    }

    /// Get the next entry, in the order of the goodbye table. After an error the same entry is
    /// tried again.
    pub fn next(&mut self) -> (r: Option<Result<DirEntry<'a, T>, Error>>)
        requires
            old(self).well_formed(),
        ensures
            final(self).well_formed(),
            *final(self).inner.dir == *old(self).inner.dir,
            match r {
                Some(Ok(entry)) => {
                    &&& entry.well_formed()
                    &&& *entry.inner.dir == *old(self).inner.dir
                    &&& old(self).inner.at < old(self).directory().table.len()
                    &&& final(self).inner.at == old(self).inner.at + 1
                    &&& old(self).directory().cursor(old(self).inner.at as int) == Ok::<_, Error>(
                        entry@,
                    )
                },
                None => old(self).inner.at == old(self).directory().table.len()
                    && final(self).inner.at == old(self).inner.at,
                Some(Err(e)) => {
                    &&& old(self).inner.at < old(self).directory().table.len()
                    &&& final(self).inner.at == old(self).inner.at
                    &&& match e {
                        Error::Io(_) => !old(self).inner.dir.input.infallible() && old(
                            self,
                        ).directory().table[old(self).inner.at as int].offset <= old(
                            self,
                        ).directory().goodbye_ofs,
                        e => old(self).directory().cursor(old(self).inner.at as int) == Err::<
                            CursorView,
                            Error,
                        >(e),
                    }
                },
            },
    {
        match self.inner.next() {
            Ok(Some(inner)) => Some(Ok(DirEntry { inner })),
            Ok(None) => None,
            Err(e) => Some(Err(e)),
        }
    }

    /// Efficient alternative to `Iterator::skip`.
    pub fn skip(self, n: usize) -> (r: Self)
        requires
            self.well_formed(),
        ensures
            r.well_formed(),
            *r.inner.dir == *self.inner.dir,
            r.inner.at == if self.inner.at + n <= self.inner.dir@.table.len() {
                self.inner.at + n
            } else {
                self.inner.dir@.table.len() as int
            },
    {
        ReadDir { inner: self.inner.skip(n) }
    }

    /// Efficient alternative to `Iterator::count`: the number of entries that are still to come.
    pub fn count(self) -> (r: usize)
        requires
            self.well_formed(),
        ensures
            r == self.inner.dir@.table.len() - self.inner.at,
    {
        self.inner.count()
    }
}

/// A directory entry. When iterating through the contents of a directory we first get access to
/// the file name. The remaining information can be decoded afterwards.
pub struct DirEntry<'a, T> {
    pub inner: DirEntryImpl<'a, T>,
}

impl<'a, T: Clone + ReadAt> DirEntry<'a, T> {
    pub open spec fn view(&self) -> CursorView {
        self.inner.view()
    }

    pub open spec fn well_formed(&self) -> bool {
        self.inner.well_formed()
    }

    /// Get the current file name.
    pub fn file_name(&self) -> (r: &[u8])
        ensures
            r@ == self@.file_name,
    {
        self.inner.file_name()
    }

    /// Decode the entry.
    ///
    /// When iterating over a directory, the file name is read separately from the file attributes,
    /// so only the file name is available here, while the attributes still need to be decoded.
    pub fn decode_entry(&self) -> (r: Result<FileEntry<T>, Error>)
        requires
            clones_equal::<T>(),
            self.well_formed(),
        ensures
            match r {
                Ok(file) => {
                    &&& file.inner.entry_range_info.well_formed()
                    &&& file.inner.input == self.inner.dir.input
                    &&& file.inner.caches == self.inner.dir.caches
                    &&& self.inner.dir@.decode_cursor(self@) == Ok::<_, Error>(file@)
                },
                Err(Error::Io(_)) => !self.inner.dir.input.infallible(),
                Err(e) => self.inner.dir@.decode_cursor(self@) == Err::<FileView, Error>(e),
            },
    {
        match self.inner.decode_entry() {
            Ok(inner) => Ok(FileEntry { inner }),
            Err(e) => Err(e),
        }
    }

    /// Exposed for raw by-offset access methods.
    pub fn entry_range_info(&self) -> (r: &EntryRangeInfo)
        ensures
            *r == self.inner.entry_range_info,
    {
        self.inner.entry_range_info()
    }
}

/// A reader for file contents.
pub struct FileContents<T> {
    pub inner: FileContentsImpl<T>,
    /// How much of the contents has been read.
    pub at: u64,
}

impl<T: ReadAt> FileContents<T> {
    /// Read some of the contents, going on where the last read stopped.
    pub fn read(&mut self, buf: &mut [u8]) -> (r: Result<usize, Error>)
        ensures
            final(buf)@.len() == old(buf)@.len(),
            final(self).inner == old(self).inner,
            match r {
                Ok(n) => {
                    &&& n <= old(buf)@.len()
                    &&& n <= old(self).stream().unread.len()
                    &&& final(buf)@.take(n as int) == old(self).stream().unread.take(n as int)
                    &&& final(self).stream() == old(self).stream().advanced(n as nat)
                    &&& final(self).at == old(self).at + n
                    &&& n == 0 ==> old(buf)@.len() == 0 || old(self).stream().unread.len() == 0
                },
                Err(e) => e is Io && !old(self).inner.infallible() && final(self).at == old(
                    self,
                ).at,
            },
    {
        match self.seq_read(buf) {
            Ok(n) => Ok(n),
            Err(e) => Err(Error::Io(e)),
        }
    }

    /// Append the rest of the contents to a vector. On success, the number of bytes is returned.
    pub fn read_to_end(&mut self, out: &mut Vec<u8>) -> (r: Result<usize, Error>)
        ensures
            match r {
                Ok(n) => {
                    &&& n == old(self).stream().unread.len()
                    &&& final(out)@ == old(out)@ + old(self).stream().unread
                    &&& final(self).stream() == old(self).stream().advanced(n as nat)
                },
                Err(e) => {
                    &&& e is Io
                    &&& !old(self).inner.infallible()
                    // what had been read by then is there
                    &&& exists|n: nat| #[trigger]
                        starts_to(old(self).stream().unread, n, old(out)@, final(out)@)
                },
            },
    {
        seq_read_to_end(self, out)
    }
}

impl<T: ReadAt> SeqRead for FileContents<T> {
    /// What has not been read.
    open spec fn stream(&self) -> InputView {
        InputView {
            unread: if self.at <= self.inner.contents().len() {
                self.inner.contents().skip(self.at as int)
            } else {
                Seq::empty()
            },
            offset: None,
        }
    }

    open spec fn infallible(&self) -> bool {
        self.inner.infallible()
    }

    fn seq_read(&mut self, buf: &mut [u8]) -> (r: Result<usize, std::io::Error>)
        ensures
            final(self).inner == old(self).inner,
            match r {
                Ok(n) => final(self).at == old(self).at + n,
                Err(_) => final(self).at == old(self).at,
            },
    {
        match self.inner.read_at(buf, self.at) {
            Ok(got) => {
                self.at = self.at + got as u64;
                proof {
                    assert(buf@.take(got as int) =~= old(self).stream().unread.take(got as int));
                    assert(self.stream() =~= old(self).stream().advanced(got as nat));
                }
                Ok(got)
            },
            Err(e) => Err(e),
        }
    }

    fn position(&mut self) -> (r: Option<Result<u64, std::io::Error>>) {
        None
    }
}

/// Positions are counted from the start of the contents, whatever has been read.
impl<T: ReadAt> ReadAt for FileContents<T> {
    open spec fn contents(&self) -> Seq<u8> {
        self.inner.contents()
    }

    open spec fn infallible(&self) -> bool {
        self.inner.infallible()
    }

    fn read_at(&self, buf: &mut [u8], offset: u64) -> (r: Result<usize, std::io::Error>) {
        self.inner.read_at(buf, offset)
    }
}

} // verus!
