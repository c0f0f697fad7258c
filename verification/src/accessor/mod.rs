//! Random access for PXAR files.

use std::ops::Range;
use std::sync::Arc;

use vstd::prelude::*;

use crate::accessor::cache::Cache;
use crate::accessor::model::{
    answer_at, directory_at, entry_in, file_named_at, filename_at, frame_at, items_of, link_place,
    link_target, may_open, part_of, shared_table, tail_at, CursorView, DirectoryView, FileView,
};
use crate::accessor::read_at::{
    clone_input, clones_equal, read_at, read_entry_at, read_exact_data_at,
};
use crate::binary_tree_array::{self, beyond, hits, lemma_hits_len, lemma_hits_sound};
use crate::decoder::model::DecoderView;
use crate::decoder::read::SeqRead;
use crate::decoder::DecoderImpl;
use crate::entry::{Entry, EntryKind, EntryView};
use crate::errors::Error;
use crate::format::goodbye::{filename_hash, GOODBYE_ITEM_SIZE};
use crate::format::wire::Wire;
use crate::format::{
    check_file_name, hash_filename, GoodbyeItem, Header, HEADER_SIZE, PXAR_FILENAME,
    PXAR_GOODBYE_TAIL_MARKER,
};
use crate::path::{self, component_views, components_of, Component, ComponentView};
use crate::util::{self, copy_vec, SLASH};

pub mod adapter;
pub mod cache;
pub mod model;
pub mod read_at;
pub mod sync;

pub use crate::accessor::adapter::SeqReadAtAdapter;
pub use crate::accessor::read_at::ReadAt;
pub use crate::accessor::sync::{Accessor, DirEntry, Directory, FileEntry, ReadDir};

verus! {

/// What is kept from one access to the next.
pub struct Caches {
    /// The goodbye table cache maps goodbye table offsets to cache entries.
    pub gbt_cache: Option<Arc<dyn Cache<u64, Vec<GoodbyeItem>>>>,
}

impl std::default::Default for Caches {
    fn default() -> (r: Self)
        ensures
            r.gbt_cache is None,
    {
        Caches { gbt_cache: None }
    }
}

/// Where an entry stands in its archive.
#[derive(Debug)]
pub struct EntryRangeInfo {
    /// Where the name of the entry starts, where it has one.
    pub filename_header_offset: Option<u64>,

    /// Where the entry starts and ends.
    pub entry_range: Range<u64>,
}

impl EntryRangeInfo {
    /// The start does not lie behind the end.
    pub open spec fn well_formed(&self) -> bool {
        self.entry_range.start <= self.entry_range.end
    }
}

impl Clone for EntryRangeInfo {
    fn clone(&self) -> (r: Self)
        ensures
            r == *self,
    {
        EntryRangeInfo {
            filename_header_offset: self.filename_header_offset,
            entry_range: self.entry_range.start..self.entry_range.end,
        }
    }
}

/// The directory random-access state machine implementation.
pub struct DirectoryImpl<T> {
    pub input: T,
    pub entry_ofs: u64,
    pub goodbye_ofs: u64,
    pub size: u64,
    pub table: Arc<Vec<GoodbyeItem>>,
    pub path: Vec<u8>,
    pub caches: Arc<Caches>,
}

/// A file entry retrieved from a Directory.
pub struct FileEntryImpl<T> {
    pub input: T,
    pub entry: Entry,
    pub entry_range_info: EntryRangeInfo,
    pub caches: Arc<Caches>,
}

impl<T: ReadAt> FileEntryImpl<T> {
    pub open spec fn view(&self) -> FileView {
        FileView {
            archive: self.input.contents(),
            entry: self.entry@,
            start: self.entry_range_info.entry_range.start,
            end: self.entry_range_info.entry_range.end,
            filename_offset: self.entry_range_info.filename_header_offset,
        }
    }
}

/// Decode the first entry in a part of an archive.
fn decode_entry_in<T: ReadAt>(input: T, range: Range<u64>, path: Vec<u8>) -> (r: Result<
    (Entry, DecoderImpl<SeqReadAtAdapter<T>>),
    Error,
>)
    requires
        range.start <= range.end,
    ensures
        match r {
            Ok((entry, decoder)) => {
                &&& entry_in(input.contents(), range.start, range.end, path@) == Ok::<_, Error>(
                    (decoder@, entry@),
                )
                &&& decoder.well_formed()
                &&& decoder.input.infallible() == input.infallible()
            },
            Err(Error::Io(_)) => !input.infallible(),
            Err(e) => entry_in(input.contents(), range.start, range.end, path@) == Err::<
                (DecoderView, EntryView),
                Error,
            >(e),
        },
{
    proof {
        reveal(entry_in);
    }
    let mut decoder = DecoderImpl::new_full(SeqReadAtAdapter::new(input, range), path, true);
    match decoder.next() {
        Some(Ok(entry)) => Ok((entry, decoder)),
        Some(Err(e)) => Err(e),
        None => Err(Error::EofInDirectoryEntry),
    }
}

/// Read the items of a goodbye table.
fn parse_items(data: &[u8]) -> (items: Vec<GoodbyeItem>)
    ensures
        items@ == items_of(data@),
{
    let len: usize = data.len();
    let n: usize = len / 24;
    let mut items: Vec<GoodbyeItem> = Vec::new();
    let mut i: usize = 0;
    while i < n
        invariant
            i <= n,
            n == len / 24,
            len == data@.len(),
            items@ == items_of(data@).take(i as int),
        decreases n - i,
    {
        let bytes = vstd::slice::slice_subrange(data, i * 24, (i + 1) * 24);
        let item = GoodbyeItem::from_bytes(bytes);
        items.push(item);
        proof {
            assert(items_of(data@)[i as int] == item);
            assert(items@ =~= items_of(data@).take(i + 1));
        }
        i = i + 1;
    }
    proof {
        assert(items_of(data@).take(i as int) =~= items_of(data@));
    }
    items
}

impl<T: Clone + ReadAt> DirectoryImpl<T> {
    pub open spec fn view(&self) -> DirectoryView {
        DirectoryView {
            archive: self.input.contents(),
            entry_ofs: self.entry_ofs,
            goodbye_ofs: self.goodbye_ofs,
            size: self.size,
            table: self.table@,
            path: self.path@,
        }
    }

    pub open spec fn well_formed(&self) -> bool {
        self@.well_formed()
    }

    /// There is no cache to rely on.
    pub open spec fn uncached(&self) -> bool {
        self.caches.gbt_cache is None
    }

    /// Open a directory ending at the specified position.
    ///
    /// A cache may hand out the goodbye table, which is then taken as it is.
    pub fn open_at_end(input: T, end_offset: u64, path: Vec<u8>, caches: Arc<Caches>) -> (r: Result<
        Self,
        Error,
    >)
        ensures
            match r {
                Ok(dir) => {
                    &&& dir.well_formed()
                    &&& dir.input == input
                    &&& dir.caches == caches
                    &&& shared_table(*dir.caches, dir.goodbye_ofs, *dir.table)
                    &&& dir@.end_offset() == end_offset
                    &&& may_open(
                        input.contents(),
                        end_offset,
                        path@,
                        *caches,
                        Ok::<_, Error>(dir@),
                    )
                    &&& frame_at(input.contents(), end_offset, path@) == Ok::<_, Error>(
                        (DirectoryView { table: Seq::empty(), ..dir@ }),
                    )
                    &&& caches.gbt_cache is None ==> directory_at(
                        input.contents(),
                        end_offset,
                        path@,
                    ) == Ok::<_, Error>(dir@)
                },
                Err(Error::Io(_)) => !input.infallible(),
                Err(e) => {
                    &&& directory_at(input.contents(), end_offset, path@) == Err::<
                        DirectoryView,
                        Error,
                    >(e)
                    &&& may_open(
                        input.contents(),
                        end_offset,
                        path@,
                        *caches,
                        Err::<DirectoryView, Error>(e),
                    )
                },
            },
            end_offset < GOODBYE_ITEM_SIZE ==> r == Err::<Self, Error>(Error::GoodbyeTailMissing),
    {
        let ghost archive = input.contents();
        proof {
            lemma_frame_error_opens(archive, end_offset, path@, caches);
        }
        let tail = match Self::read_tail_entry(&input, end_offset) {
            Ok(tail) => tail,
            Err(e) => {
                return Err(e);
            },
        };
        if end_offset < tail.size {
            return Err(Error::GoodbyeTailSizeOutOfRange);
        }
        let goodbye_ofs: u64 = end_offset - tail.size;
        if goodbye_ofs < tail.offset {
            return Err(Error::GoodbyeOffsetOutOfRange);
        }
        let entry_ofs: u64 = goodbye_ofs - tail.offset;
        let size: u64 = end_offset - entry_ofs;
        let table: Option<Arc<Vec<GoodbyeItem>>> = match &caches.gbt_cache {
            Some(cache) => cache.fetch(goodbye_ofs),
            None => None,
        };
        proof {
            assert(answer_at(archive, end_offset, path@, *caches, answer_of(table)));
        }
        let this = DirectoryImpl {
            input,
            entry_ofs,
            goodbye_ofs,
            size,
            table: Arc::new(Vec::new()),
            path,
            caches,
        };
        // sanity check:
        if tail.size < HEADER_SIZE {
            return Err(Error::InvalidGoodbyeTableSize { size: 0 });
        }
        let table_size: u64 = tail.size - HEADER_SIZE;
        if table_size % GOODBYE_ITEM_SIZE != 0 {
            return Err(Error::InvalidGoodbyeTableSize { size: table_size });
        }
        Self::with_table(this, table)
    }

    /// Give a directory its goodbye table: the one that was cached, or else the one in the
    /// archive.
    pub fn with_table(self, cached: Option<Arc<Vec<GoodbyeItem>>>) -> (r: Result<Self, Error>)
        requires
            self.well_formed(),
        ensures
            match r {
                Ok(dir) => {
                    &&& dir.well_formed()
                    &&& dir.input == self.input
                    &&& dir.caches == self.caches
                    &&& match cached {
                        Some(table) => {
                            &&& dir@ == (DirectoryView { table: table@, ..self@ })
                            &&& dir.table == table
                        },
                        None => {
                            &&& self@.loaded() == Ok::<_, Error>(dir@)
                            &&& shared_table(*dir.caches, dir.goodbye_ofs, *dir.table)
                        },
                    }
                },
                Err(Error::Io(_)) => !self.input.infallible(),
                Err(e) => cached is None && self@.loaded() == Err::<DirectoryView, Error>(e),
            },
    {
        let mut this = self;
        match cached {
            Some(table) => {
                this.table = table;
            },
            None => {
                let table = match this.load_table() {
                    Ok(table) => Arc::new(table),
                    Err(e) => {
                        return Err(e);
                    },
                };
                match &this.caches.gbt_cache {
                    Some(cache) => {
                        cache.insert(this.goodbye_ofs, table.clone());
                    },
                    None => {},
                }
                this.table = table;
            },
        }
        Ok(this)
    }

    /// Load the entire goodbye table:
    fn load_table(&self) -> (r: Result<Vec<GoodbyeItem>, Error>)
        requires
            self.well_formed(),
        ensures
            match r {
                Ok(table) => self@.loaded() == Ok::<_, Error>(
                    (DirectoryView { table: table@, ..self@ }),
                ),
                Err(Error::Io(_)) => !self.input.infallible(),
                Err(e) => self@.loaded() == Err::<DirectoryView, Error>(e),
            },
    {
        if self.table_size() < GOODBYE_ITEM_SIZE {
            return Err(Error::InvalidGoodbyeTableSize { size: self.table_size() });
        }
        let len: u64 = self.len();
        proof {
            assert(len * GOODBYE_ITEM_SIZE <= u64::MAX);
        }
        let size: u64 = len * GOODBYE_ITEM_SIZE;
        if size > usize::MAX as u64 {
            return Err(Error::OutOfRange);
        }
        match read_exact_data_at(&self.input, size as usize, self.table_offset()) {
            Ok(data) => Ok(parse_items(data.as_slice())),
            Err(e) => Err(e),
        }
    }

    fn end_offset(&self) -> (r: u64)
        requires
            self.well_formed(),
        ensures
            r == self@.end_offset(),
    {
        self.entry_ofs + self.size
    }

    fn entry_range(&self) -> (r: Range<u64>)
        requires
            self.well_formed(),
        ensures
            r.start == self.entry_ofs,
            r.end == self@.end_offset(),
    {
        self.entry_ofs..self.end_offset()
    }

    fn table_size(&self) -> (r: u64)
        requires
            self.well_formed(),
        ensures
            r == self@.table_size(),
    {
        (self.end_offset() - self.goodbye_ofs) - HEADER_SIZE
    }

    fn table_offset(&self) -> (r: u64)
        requires
            self.well_formed(),
        ensures
            r == self@.table_offset(),
    {
        self.goodbye_ofs + HEADER_SIZE
    }

    /// Length *excluding* the tail marker!
    fn len(&self) -> (r: u64)
        requires
            self.well_formed(),
            self@.table_size() >= GOODBYE_ITEM_SIZE,
        ensures
            r == self@.table_len(),
            r * GOODBYE_ITEM_SIZE <= u64::MAX,
    {
        self.table_size() / GOODBYE_ITEM_SIZE - 1
    }

    /// Read the goodbye tail and perform some sanity checks.
    fn read_tail_entry(input: &T, end_offset: u64) -> (r: Result<GoodbyeItem, Error>)
        ensures
            match r {
                Ok(tail) => tail_at(input.contents(), end_offset) == Ok::<_, Error>(tail),
                Err(Error::Io(_)) => !input.infallible(),
                Err(e) => tail_at(input.contents(), end_offset) == Err::<GoodbyeItem, Error>(e),
            },
            end_offset < GOODBYE_ITEM_SIZE ==> r == Err::<GoodbyeItem, Error>(
                Error::GoodbyeTailMissing,
            ),
    {
        if end_offset < GOODBYE_ITEM_SIZE {
            return Err(Error::GoodbyeTailMissing);
        }
        let tail_offset: u64 = end_offset - GOODBYE_ITEM_SIZE;
        let tail: GoodbyeItem = match read_entry_at(input, tail_offset) {
            Ok(tail) => tail,
            Err(e) => {
                return Err(e);
            },
        };
        if tail.hash != PXAR_GOODBYE_TAIL_MARKER {
            return Err(Error::GoodbyeTailMarkerMissing);
        }
        Ok(tail)
    }

    /// Get a decoder for the directory contents.
    pub fn decode_full(&self) -> (r: Result<DecoderImpl<SeqReadAtAdapter<T>>, Error>)
        requires
            clones_equal::<T>(),
            self.well_formed(),
        ensures
            match r {
                Ok(decoder) => decoder.well_formed() && decoder.input.infallible()
                    == self.input.infallible() && self@.decode_full() == Ok::<_, Error>(decoder@),
                Err(Error::Io(_)) => !self.input.infallible(),
                Err(e) => self@.decode_full() == Err::<DecoderView, Error>(e),
            },
    {
        match decode_entry_in(clone_input(&self.input), self.entry_range(), copy_vec(&self.path)) {
            Ok((dir, decoder)) => if dir.is_dir() {
                Ok(decoder)
            } else {
                Err(Error::DirectoryExpected)
            },
            Err(e) => Err(e),
        }
    }

    /// Find an item by its hash, skipping some of the matches.
    fn lookup_hash_position(&self, hash: u64, start: usize, skip: usize) -> (r: Option<usize>)
        ensures
            match r {
                Some(index) => skip < hits(self@.table, start as int, hash).len() && hits(
                    self@.table,
                    start as int,
                    hash,
                )[skip as int] == index,
                None => hits(self@.table, start as int, hash).len() <= skip,
            },
    {
        binary_tree_array::search_by(self.table.as_slice(), start, skip, hash)
    }

    /// Get a `FileEntryImpl` referencing the directory itself.
    pub fn lookup_self(&self) -> (r: Result<FileEntryImpl<T>, Error>)
        requires
            clones_equal::<T>(),
            self.well_formed(),
        ensures
            match r {
                Ok(file) => {
                    &&& file.entry_range_info.well_formed()
                    &&& file.input == self.input
                    &&& file.caches == self.caches
                    &&& self@.lookup_self() == Ok::<_, Error>(file@)
                },
                Err(Error::Io(_)) => !self.input.infallible(),
                Err(e) => self@.lookup_self() == Err::<FileView, Error>(e),
            },
    {
        match decode_entry_in(clone_input(&self.input), self.entry_range(), copy_vec(&self.path)) {
            Ok((entry, _decoder)) => Ok(
                FileEntryImpl {
                    input: clone_input(&self.input),
                    entry,
                    entry_range_info: EntryRangeInfo {
                        filename_header_offset: None,
                        entry_range: self.entry_range(),
                    },
                    caches: self.caches.clone(),
                },
            ),
            Err(e) => Err(e),
        }
    }

    /// Lookup a directory entry.
    ///
    /// With a cache, what is found below a subdirectory rests on the tables that it hands out, for
    /// the place where the table of that subdirectory starts.
    pub fn lookup(&self, path: &[u8]) -> (r: Result<Option<FileEntryImpl<T>>, Error>)
        requires
            clones_equal::<T>(),
            self.well_formed(),
        ensures
            match r {
                Ok(Some(file)) => {
                    &&& file.entry_range_info.well_formed()
                    &&& file.input == self.input
                    &&& file.caches == self.caches
                },
                _ => true,
            },
            self.uncached() || components_of(path@).len() <= 1 ==> match r {
                Ok(file) => self@.lookup(path@) == Ok::<_, Error>(file_view(file)),
                Err(Error::Io(_)) => !self.input.infallible(),
                Err(e) => self@.lookup(path@) == Err::<Option<FileView>, Error>(e),
            },
            match r {
                Ok(file) => self@.may_find(*self.caches, path@, Ok::<_, Error>(file_view(file))),
                Err(Error::Io(_)) => !self.input.infallible(),
                Err(e) => self@.may_find(*self.caches, path@, Err::<Option<FileView>, Error>(e)),
            },
            components_of(path@).len() == 0 ==> r matches Ok(None),
            components_of(path@).len() > 0 ==> match components_of(path@)[0] {
                ComponentView::Normal(name) => hits(self@.table, 0, filename_hash(name)).len() == 0
                    ==> r matches Ok(None),
                _ => true,
            },
            components_of(path@).len() > 0 && components_of(path@)[0] is ParentDir ==> r == Err::<
                Option<FileEntryImpl<T>>,
                Error,
            >(Error::ParentDirectory),
    {
        let mut cur: Option<FileEntryImpl<T>> = None;
        let parts = path::components(path);
        let ghost views = component_views(parts@);
        let mut i: usize = 0;
        let mut first = true;
        proof {
            assert(views.skip(0) =~= views);
        }
        while i < parts.len()
            invariant
                clones_equal::<T>(),
                self.well_formed(),
                i <= parts@.len(),
                views == component_views(parts@),
                views == components_of(path@),
                cur matches Some(file) ==> {
                    &&& file.entry_range_info.well_formed()
                    &&& file.input == self.input
                    &&& file.caches == self.caches
                },
                first == (i == 0),
                first ==> cur is None,
                views.len() > 0 && views[0] is ParentDir ==> first,
                views.len() > 0 ==> (views[0] matches ComponentView::Normal(name) ==> hits(
                    self@.table,
                    0,
                    filename_hash(name),
                ).len() == 0 ==> first),
                forall|outcome: Result<Option<FileView>, Error>| #[trigger]
                    self@.may_find_components(
                        *self.caches,
                        views.skip(i as int),
                        first,
                        file_view(cur),
                        outcome,
                    ) ==> self@.may_find(*self.caches, path@, outcome),
                self.uncached() || views.len() <= 1 ==> self@.lookup(path@)
                    == self@.lookup_components(views.skip(i as int), first, file_view(cur)),
            decreases parts@.len() - i,
        {
            proof {
                assert(views.skip(i as int)[0] == parts@[i as int]@);
                assert(views.skip(i as int).skip(1) =~= views.skip(i + 1));
            }
            let ghost was = file_view(cur);
            let found = self.lookup_first(&parts[i], first, cur);
            proof {
                assert forall|found: Result<Option<FileView>, Error>, outcome| #[trigger]
                    self@.may_find_first(
                        *self.caches,
                        views[i as int],
                        first,
                        was,
                        found,
                    ) && #[trigger] self@.goes_on(
                        *self.caches,
                        views.skip(i as int),
                        found,
                        outcome,
                    ) implies self@.may_find(*self.caches, path@, outcome) by {
                    assert(self@.may_find_components(
                        *self.caches,
                        views.skip(i as int),
                        first,
                        was,
                        outcome,
                    ));
                }
            }
            let normal = match parts[i] {
                Component::Normal(_) => true,
                _ => false,
            };
            match found {
                Ok(next) => {
                    let ghost found = Ok::<_, Error>(file_view(next));
                    if next.is_none() && normal {
                        proof {
                            assert(self@.goes_on(*self.caches, views.skip(i as int), found, found));
                        }
                        return Ok(None);
                    }
                    proof {
                        assert forall|outcome: Result<Option<FileView>, Error>| #[trigger]
                            self@.may_find_components(
                                *self.caches,
                                views.skip(i + 1),
                                false,
                                file_view(next),
                                outcome,
                            ) implies self@.may_find(*self.caches, path@, outcome) by {
                            assert(self@.goes_on(
                                *self.caches,
                                views.skip(i as int),
                                found,
                                outcome,
                            ));
                        }
                    }
                    cur = next;
                },
                Err(e) => {
                    proof {
                        let found = Err::<Option<FileView>, Error>(e);
                        assert(self@.goes_on(*self.caches, views.skip(i as int), found, found));
                    }
                    return Err(e);
                },
            }
            i = i + 1;
            first = false;
        }
        proof {
            assert(self@.may_find_components(
                *self.caches,
                views.skip(i as int),
                first,
                file_view(cur),
                Ok::<_, Error>(file_view(cur)),
            ));
        }
        Ok(cur)
    }

    /// Look up the first of some path components, coming from `cur`.
    fn lookup_first(
        &self,
        part: &Component,
        first: bool,
        cur: Option<FileEntryImpl<T>>,
    ) -> (r: Result<Option<FileEntryImpl<T>>, Error>)
        requires
            clones_equal::<T>(),
            self.well_formed(),
            first ==> cur is None,
            cur matches Some(file) ==> {
                &&& file.entry_range_info.well_formed()
                &&& file.input == self.input
                &&& file.caches == self.caches
            },
        ensures
            r matches Ok(Some(file)) ==> {
                &&& file.entry_range_info.well_formed()
                &&& file.input == self.input
                &&& file.caches == self.caches
            },
            ({
                let exact = self@.lookup_first(part@, first, file_view(cur));
                match r {
                    Ok(file) => {
                        &&& self@.may_find_first(
                            *self.caches,
                            part@,
                            first,
                            file_view(cur),
                            Ok::<_, Error>(file_view(file)),
                        )
                        &&& self.uncached() || cur is None ==> exact == Ok::<_, Error>(
                            file_view(file),
                        )
                    },
                    Err(Error::Io(_)) => !self.input.infallible(),
                    Err(e) => {
                        &&& self@.may_find_first(
                            *self.caches,
                            part@,
                            first,
                            file_view(cur),
                            Err::<Option<FileView>, Error>(e),
                        )
                        &&& self.uncached() || cur is None ==> exact == Err::<
                            Option<FileView>,
                            Error,
                        >(e)
                    },
                }
            }),
            part@ is ParentDir ==> r == Err::<Option<FileEntryImpl<T>>, Error>(
                Error::ParentDirectory,
            ),
            cur is None ==> (part@ matches ComponentView::Normal(name) ==> hits(
                self@.table,
                0,
                filename_hash(name),
            ).len() == 0 ==> r matches Ok(None)),
    {
        match part {
            Component::Normal(name) => match cur {
                Some(entry) => match entry.enter_directory() {
                    Ok(dir) => dir.lookup_component(name),
                    Err(e) => Err(e),
                },
                None => self.lookup_component(name),
            },
            Component::ParentDir => Err(Error::ParentDirectory),
            Component::RootDir => if !first {
                Err(Error::InvalidComponent)
            } else {
                match self.lookup_self() {
                    Ok(file) => Ok(Some(file)),
                    Err(e) => Err(e),
                }
            },
            Component::CurDir => if first {
                match self.lookup_self() {
                    Ok(file) => Ok(Some(file)),
                    Err(e) => Err(e),
                }
            } else {
                Ok(cur)
            },
        }
    }

    /// Lookup a single directory entry component (does not handle multiple components in path)
    pub fn lookup_component(&self, path: &[u8]) -> (r: Result<Option<FileEntryImpl<T>>, Error>)
        requires
            clones_equal::<T>(),
            self.well_formed(),
        ensures
            match r {
                Ok(file) => self@.lookup_component(path@) == Ok::<_, Error>(file_view(file)),
                Err(Error::Io(_)) => !self.input.infallible(),
                Err(e) => self@.lookup_component(path@) == Err::<Option<FileView>, Error>(e),
            },
            r matches Ok(Some(file)) ==> {
                &&& file.entry_range_info.well_formed()
                &&& file.input == self.input
                &&& file.caches == self.caches
            },
            hits(self@.table, 0, filename_hash(path@)).len() == 0 ==> r matches Ok(None),
    {
        let hash: u64 = hash_filename(path);
        let ghost found = hits(self@.table, 0, hash);
        let first_index: usize = match self.lookup_hash_position(hash, 0, 0) {
            Some(index) => index,
            None => {
                return Ok(None);
            },
        };
        proof {
            lemma_hits_from_first(self@.table, 0, hash);
        }
        // Lookup FILENAME, if the hash matches but the filename doesn't, check for a duplicate
        // hash once found, use the GoodbyeItem's offset+size as well as the file's Entry to return
        // a DirEntry::Dir or Dir::Entry.
        //
        let mut dup: usize = 0;
        let _len: usize = self.table.len();
        loop
            invariant
                clones_equal::<T>(),
                self.well_formed(),
                hash == filename_hash(path@),
                found == hits(self@.table, 0, hash),
                found == hits(self@.table, first_index as int, hash),
                dup <= found.len(),
                found.len() <= self@.table.len(),
                self@.table.len() <= usize::MAX,
                self@.lookup_component(path@) == self@.lookup_from(path@, dup as nat),
            decreases found.len() - dup,
        {
            let index: usize = match self.lookup_hash_position(hash, first_index, dup) {
                Some(index) => index,
                None => {
                    return Ok(None);
                },
            };
            proof {
                lemma_hits_sound(self@.table, 0, hash);
                assert(found[dup as int] == index);
            }
            let cursor = match self.get_cursor(index) {
                Ok(cursor) => cursor,
                Err(e) => {
                    return Err(e);
                },
            };
            if path::same_path(cursor.file_name.as_slice(), path) {
                return match cursor.decode_entry() {
                    Ok(file) => Ok(Some(file)),
                    Err(e) => Err(e),
                };
            }
            dup = dup + 1;
        }
    }

    /// Find the name of the file that an item of the goodbye table points to.
    fn get_cursor<'a>(&'a self, index: usize) -> (r: Result<DirEntryImpl<'a, T>, Error>)
        requires
            self.well_formed(),
            index < self@.table.len(),
        ensures
            match r {
                Ok(cursor) => cursor.well_formed() && *cursor.dir == *self && self@.cursor(
                    index as int,
                ) == Ok::<_, Error>(cursor@),
                Err(Error::Io(_)) => !self.input.infallible() && self@.table[index as int].offset
                    <= self.goodbye_ofs,
                Err(e) => self@.cursor(index as int) == Err::<CursorView, Error>(e),
            },
    {
        let entry = self.table[index];
        let file_goodbye_ofs: u64 = entry.offset;
        if self.goodbye_ofs < file_goodbye_ofs {
            return Err(Error::InvalidFileOffset);
        }
        let file_ofs: u64 = self.goodbye_ofs - file_goodbye_ofs;
        let (file_name, entry_ofs) = match self.read_filename_entry(file_ofs) {
            Ok(r) => r,
            Err(e) => {
                return Err(e);
            },
        };
        if entry.size > u64::MAX - file_ofs || file_ofs + entry.size < entry_ofs {
            return Err(
                Error::InvalidEntryRange { start: entry_ofs, file_ofs, size: entry.size },
            );
        }
        Ok(
            DirEntryImpl {
                dir: self,
                file_name,
                entry_range_info: EntryRangeInfo {
                    filename_header_offset: Some(file_ofs),
                    entry_range: entry_ofs..(file_ofs + entry.size),
                },
            },
        )
    }

    fn read_filename_entry(&self, file_ofs: u64) -> (r: Result<(Vec<u8>, u64), Error>)
        ensures
            match r {
                Ok((name, end)) => filename_at(self@.archive, file_ofs) == Ok::<_, Error>(
                    (name@, end),
                ),
                Err(Error::Io(_)) => !self.input.infallible(),
                Err(e) => filename_at(self@.archive, file_ofs) == Err::<(Seq<u8>, u64), Error>(e),
            },
    {
        let head: Header = match read_entry_at(&self.input, file_ofs) {
            Ok(head) => head,
            Err(e) => {
                return Err(e);
            },
        };
        if head.htype != PXAR_FILENAME {
            return Err(Error::ExpectedFilename { htype: head.htype });
        }
        if head.full_size() < HEADER_SIZE {
            return Err(
                Error::HeaderTooSmall { htype: head.htype, full_size: head.full_size() },
            );
        }
        let size: u64 = head.content_size();
        if size > usize::MAX as u64 {
            return Err(Error::OutOfRange);
        }
        let mut path = match read_exact_data_at(
            &self.input,
            size as usize,
            file_ofs + HEADER_SIZE,
        ) {
            Ok(path) => path,
            Err(e) => {
                return Err(e);
            },
        };
        match path.pop() {
            Some(0) => {},
            _ => {
                return Err(Error::MissingTerminatingZero);
            },
        }
        if path.len() == 0 {
            return Err(Error::EmptyName);
        }
        match check_file_name(path.as_slice()) {
            Ok(()) => {},
            Err(e) => {
                return Err(e);
            },
        }
        Ok((path, file_ofs + head.full_size()))
    }

    /// Get an iterator over the directory's contents.
    pub fn read_dir<'a>(&'a self) -> (r: ReadDirImpl<'a, T>)
        ensures
            *r.dir == *self,
            r.at == 0,
    {
        ReadDirImpl::new(self, 0)
    }

    /// Get the number of entries in this directory.
    pub fn entry_count(&self) -> (r: usize)
        ensures
            r == self@.table.len(),
    {
        self.table.len()
    }
}

/// The contents of an optional file entry.
pub open spec fn file_view<T: ReadAt>(file: Option<FileEntryImpl<T>>) -> Option<FileView> {
    match file {
        Some(file) => Some(file@),
        None => None,
    }
}

/// What the cache answered.
spec fn answer_of(table: Option<Arc<Vec<GoodbyeItem>>>) -> Option<Vec<GoodbyeItem>> {
    match table {
        Some(table) => Some(*table),
        None => None,
    }
}

/// What keeps a directory from being opened before the cache is asked may come of opening it.
proof fn lemma_frame_error_opens(archive: Seq<u8>, end: u64, path: Seq<u8>, caches: Arc<Caches>)
    ensures
        frame_at(archive, end, path) matches Err(e) ==> may_open(
            archive,
            end,
            path,
            *caches,
            Err::<DirectoryView, Error>(e),
        ),
{
    let answer: Option<Vec<GoodbyeItem>> = None;
    if frame_at(archive, end, path) is Err {
        assert(answer_at(archive, end, path, *caches, answer));
    }
}

/// Searching from the first match on finds the same.
proof fn lemma_hits_from_first(table: Seq<GoodbyeItem>, i: int, hash: u64)
    requires
        0 <= i,
    ensures
        hits(table, i, hash).len() > 0 ==> hits(table, hits(table, i, hash)[0], hash) == hits(
            table,
            i,
            hash,
        ),
        hits(table, i, hash).len() <= table.len(),
    decreases beyond(table.len() as int, i),
{
    lemma_hits_len(table, i, hash);
    if i < table.len() {
        if hash < table[i].hash {
            lemma_hits_from_first(table, 2 * i + 1, hash);
        } else if hash > table[i].hash {
            lemma_hits_from_first(table, 2 * i + 2, hash);
        }
    }
}

impl<T: Clone + ReadAt> FileEntryImpl<T> {
    /// Open the directory that this entry is.
    pub fn enter_directory(&self) -> (r: Result<DirectoryImpl<T>, Error>)
        requires
            clones_equal::<T>(),
        ensures
            match r {
                Ok(dir) => {
                    &&& dir.well_formed()
                    &&& dir.input == self.input
                    &&& dir.caches == self.caches
                    &&& shared_table(*dir.caches, dir.goodbye_ofs, *dir.table)
                    &&& self@.entry.kind is Directory
                    &&& may_open(
                        self@.archive,
                        self@.end,
                        self@.entry.path,
                        *self.caches,
                        Ok::<_, Error>(dir@),
                    )
                    &&& frame_at(self@.archive, self@.end, self@.entry.path) == Ok::<_, Error>(
                        (DirectoryView { table: Seq::empty(), ..dir@ }),
                    )
                    &&& self.caches.gbt_cache is None ==> self@.enter_directory() == Ok::<_, Error>(
                        dir@,
                    )
                },
                Err(Error::Io(_)) => !self.input.infallible(),
                Err(e) => {
                    &&& self@.enter_directory() == Err::<DirectoryView, Error>(e)
                    &&& self@.entry.kind is Directory ==> may_open(
                        self@.archive,
                        self@.end,
                        self@.entry.path,
                        *self.caches,
                        Err::<DirectoryView, Error>(e),
                    )
                },
            },
            !(self@.entry.kind is Directory) ==> r == Err::<DirectoryImpl<T>, Error>(
                Error::EnterNonDirectory,
            ),
    {
        if !self.entry.is_dir() {
            return Err(Error::EnterNonDirectory);
        }
        DirectoryImpl::open_at_end(
            clone_input(&self.input),
            self.entry_range_info.entry_range.end,
            copy_vec(&self.entry.path),
            self.caches.clone(),
        )
    }

    /// Get the place of the contents in the archive, for a regular file.
    pub fn content_range(&self) -> (r: Result<Option<Range<u64>>, Error>)
        ensures
            match r {
                Ok(Some(range)) => self@.content_range() == Ok::<_, Error>(
                    Some((range.start, range.end)),
                ),
                Ok(None) => self@.content_range() == Ok::<Option<(u64, u64)>, Error>(None),
                Err(e) => self@.content_range() == Err::<Option<(u64, u64)>, Error>(e),
            },
    {
        match self.entry.kind {
            EntryKind::File { offset: None, .. } => Err(Error::NoFileOffset),
            EntryKind::File { size, offset: Some(offset) } => if size > u64::MAX - offset {
                Err(Error::OutOfRange)
            } else {
                Ok(Some(offset..(offset + size)))
            },
            _ => Ok(None),
        }
    }

    /// Get a reader for the contents of a regular file.
    pub fn contents(&self) -> (r: Result<FileContentsImpl<T>, Error>)
        requires
            clones_equal::<T>(),
        ensures
            match r {
                Ok(contents) => {
                    &&& contents.input == self.input
                    &&& self@.content_range() == Ok::<_, Error>(
                        Some((contents.range.start, contents.range.end)),
                    )
                    &&& contents.range.start <= contents.range.end
                },
                Err(e) => match self@.content_range() {
                    Ok(None) => e == Error::NotAFile,
                    Err(e2) => e == e2,
                    Ok(Some(_)) => false,
                },
            },
    {
        match self.content_range() {
            Ok(Some(range)) => Ok(FileContentsImpl::new(clone_input(&self.input), range)),
            Ok(None) => Err(Error::NotAFile),
            Err(e) => Err(e),
        }
    }

    pub fn into_entry(self) -> (r: Entry)
        ensures
            r == self.entry,
    {
        self.entry
    }

    pub fn entry(&self) -> (r: &Entry)
        ensures
            *r == self.entry,
    {
        &self.entry
    }

    /// Exposed for raw by-offset access methods (use with `open_dir_at_end`).
    pub fn entry_range_info(&self) -> (r: &EntryRangeInfo)
        ensures
            *r == self.entry_range_info,
    {
        &self.entry_range_info
    }
}

/// An iterator over the contents of a directory.
pub struct ReadDirImpl<'a, T> {
    pub dir: &'a DirectoryImpl<T>,
    pub at: usize,
}

impl<'a, T: Clone + ReadAt> ReadDirImpl<'a, T> {
    pub open spec fn well_formed(&self) -> bool {
        self.dir.well_formed() && self.at <= self.dir@.table.len()
    }

    fn new(dir: &'a DirectoryImpl<T>, at: usize) -> (r: Self)
        ensures
            *r.dir == *dir,
            r.at == at,
    {
        ReadDirImpl { dir, at }
    }

    /// Get the next entry, in the order of the goodbye table. After an error the same entry is
    /// tried again.
    pub fn next(&mut self) -> (r: Result<Option<DirEntryImpl<'a, T>>, Error>)
        requires
            old(self).well_formed(),
        ensures
            final(self).well_formed(),
            *final(self).dir == *old(self).dir,
            match r {
                Ok(Some(entry)) => {
                    &&& entry.well_formed()
                    &&& *entry.dir == *old(self).dir
                    &&& old(self).at < old(self).dir@.table.len()
                    &&& final(self).at == old(self).at + 1
                    &&& old(self).dir@.cursor(old(self).at as int) == Ok::<_, Error>(entry@)
                },
                Ok(None) => old(self).at == old(self).dir@.table.len() && final(self).at == old(
                    self,
                ).at,
                Err(e) => {
                    &&& old(self).at < old(self).dir@.table.len()
                    &&& final(self).at == old(self).at
                    &&& match e {
                        Error::Io(_) => !old(self).dir.input.infallible() && old(
                            self,
                        ).dir@.table[old(self).at as int].offset <= old(self).dir@.goodbye_ofs,
                        e => old(self).dir@.cursor(old(self).at as int) == Err::<
                            CursorView,
                            Error,
                        >(e),
                    }
                },
            },
    {
        if self.at == self.dir.table.len() {
            Ok(None)
        } else {
            match self.dir.get_cursor(self.at) {
                Ok(cursor) => {
                    self.at = self.at + 1;
                    Ok(Some(cursor))
                },
                Err(e) => Err(e),
            }
        }
    }

    /// Efficient alternative to `Iterator::skip`.
    pub fn skip(self, n: usize) -> (r: Self)
        requires
            self.well_formed(),
        ensures
            r.well_formed(),
            *r.dir == *self.dir,
            r.at == if self.at + n <= self.dir@.table.len() {
                self.at + n
            } else {
                self.dir@.table.len() as int
            },
    {
        let len: usize = self.dir.table.len();
        let at: usize = if n <= len - self.at {
            self.at + n
        } else {
            len
        };
        ReadDirImpl { at, dir: self.dir }
    }

    /// Efficient alternative to `Iterator::count`: the number of entries that are still to come.
    pub fn count(self) -> (r: usize)
        requires
            self.well_formed(),
        ensures
            r == self.dir@.table.len() - self.at,
    {
        self.dir.table.len() - self.at
    }
}

/// A cursor pointing to a file in a directory.
///
/// At this point only the file name has been read and we remembered the position for finding the
/// actual data. This can be upgraded into a FileEntryImpl.
pub struct DirEntryImpl<'a, T> {
    pub dir: &'a DirectoryImpl<T>,
    pub file_name: Vec<u8>,
    pub entry_range_info: EntryRangeInfo,
}

impl<'a, T: Clone + ReadAt> DirEntryImpl<'a, T> {
    pub open spec fn view(&self) -> CursorView {
        CursorView {
            file_name: self.file_name@,
            filename_offset: self.entry_range_info.filename_header_offset->0,
            start: self.entry_range_info.entry_range.start,
            end: self.entry_range_info.entry_range.end,
        }
    }

    pub open spec fn well_formed(&self) -> bool {
        &&& self.dir.well_formed()
        &&& self.entry_range_info.well_formed()
        &&& self.entry_range_info.filename_header_offset is Some
    }

    /// Get the current file name.
    pub fn file_name(&self) -> (r: &[u8])
        ensures
            r@ == self@.file_name,
    {
        self.file_name.as_slice()
    }

    /// Decode the entry.
    pub fn decode_entry(&self) -> (r: Result<FileEntryImpl<T>, Error>)
        requires
            clones_equal::<T>(),
            self.well_formed(),
        ensures
            match r {
                Ok(file) => {
                    &&& file.entry_range_info.well_formed()
                    &&& file.input == self.dir.input
                    &&& file.caches == self.dir.caches
                    &&& self.dir@.decode_cursor(self@) == Ok::<_, Error>(file@)
                },
                Err(Error::Io(_)) => !self.dir.input.infallible(),
                Err(e) => self.dir@.decode_cursor(self@) == Err::<FileView, Error>(e),
            },
    {
        let mut path = copy_vec(&self.dir.path);
        path::push(&mut path, self.file_name.as_slice());
        let info = self.entry_range_info.clone();
        match decode_entry_in(
            clone_input(&self.dir.input),
            self.entry_range_info.entry_range.start..self.entry_range_info.entry_range.end,
            path,
        ) {
            Ok((entry, _decoder)) => Ok(
                FileEntryImpl {
                    input: clone_input(&self.dir.input),
                    entry,
                    entry_range_info: info,
                    caches: self.dir.caches.clone(),
                },
            ),
            Err(e) => Err(e),
        }
    }

    /// Exposed for raw by-offset access methods.
    pub fn entry_range_info(&self) -> (r: &EntryRangeInfo)
        ensures
            *r == self.entry_range_info,
    {
        &self.entry_range_info
    }
}

/// A reader for file contents.
pub struct FileContentsImpl<T> {
    pub input: T,
    /// Absolute offset inside the `input`.
    pub range: Range<u64>,
}

impl<T: ReadAt> FileContentsImpl<T> {
    pub fn new(input: T, range: Range<u64>) -> (r: Self)
        ensures
            r.input == input,
            r.range == range,
    {
        FileContentsImpl { input, range }
    }

    pub fn file_size(&self) -> (r: u64)
        requires
            self.range.start <= self.range.end,
        ensures
            r == self.range.end - self.range.start,
    {
        self.range.end - self.range.start
    }
}

impl<T: ReadAt> ReadAt for FileContentsImpl<T> {
    open spec fn contents(&self) -> Seq<u8> {
        part_of(self.input.contents(), self.range.start, self.range.end)
    }

    open spec fn infallible(&self) -> bool {
        self.input.infallible()
    }

    fn read_at(&self, buf: &mut [u8], offset: u64) -> (r: Result<usize, std::io::Error>) {
        if self.range.end <= self.range.start {
            return Ok(0);
        }
        let size: u64 = self.file_size();
        if offset >= size {
            return Ok(0);
        }
        let remaining: u64 = size - offset;
        let room: usize = buf.len();
        let len: usize = if remaining < room as u64 {
            remaining as usize
        } else {
            room
        };
        let start: u64 = self.range.start + offset;
        let got: usize;
        {
            let (front, _) = buf.split_at_mut(len);
            got =
            match self.input.read_at(front, start) {
                Ok(got) => got,
                Err(e) => {
                    return Err(e);
                },
            };
        }
        proof {
            if got > 0 {
                let all = self.input.contents();
                assert(buf@.take(got as int) =~= buf@.take(len as int).take(got as int));
                assert(buf@.take(got as int) == all.subrange(start as int, start + got));
                assert(start + got <= self.range.end);
                assert(all.subrange(start as int, start + got) =~= self.contents().subrange(
                    offset as int,
                    offset + got,
                ));
            }
        }
        Ok(got)
    }
}

/// The random access state machine implementation.
pub struct AccessorImpl<T> {
    pub input: T,
    pub size: u64,
    pub caches: Arc<Caches>,
}

/// The path of the root directory.
fn root_path() -> (path: Vec<u8>)
    ensures
        path@ == seq![SLASH],
{
    let mut path: Vec<u8> = Vec::new();
    path.push(SLASH);
    proof {
        assert(path@ =~= seq![SLASH]);
    }
    path
}

impl<T: ReadAt> AccessorImpl<T> {
    pub fn new(input: T, size: u64) -> (r: Result<Self, Error>)
        ensures
            match r {
                Ok(this) => size >= GOODBYE_ITEM_SIZE && this.input == input && this.size == size
                    && this.caches.gbt_cache is None,
                Err(e) => e == Error::ArchiveTooSmall && size < GOODBYE_ITEM_SIZE,
            },
    {
        if size < GOODBYE_ITEM_SIZE {
            return Err(Error::ArchiveTooSmall);
        }
        Ok(AccessorImpl { input, size, caches: Arc::new(Caches::default()) })
    }

    /// Get the full archive size we're allowed to access.
    pub fn size(&self) -> (r: u64)
        ensures
            r == self.size,
    {
        self.size
    }

    /// Open the root directory.
    pub fn open_root_ref<'a>(&'a self) -> (r: Result<DirectoryImpl<&'a T>, Error>)
        ensures
            match r {
                Ok(dir) => {
                    &&& dir.well_formed()
                    &&& *dir.input == self.input
                    &&& dir.caches == self.caches
                    &&& shared_table(*dir.caches, dir.goodbye_ofs, *dir.table)
                    &&& may_open(
                        self.input.contents(),
                        self.size,
                        seq![SLASH],
                        *self.caches,
                        Ok::<_, Error>(dir@),
                    )
                    &&& frame_at(self.input.contents(), self.size, seq![SLASH]) == Ok::<_, Error>(
                        (DirectoryView { table: Seq::empty(), ..dir@ }),
                    )
                    &&& self.caches.gbt_cache is None ==> directory_at(
                        self.input.contents(),
                        self.size,
                        seq![SLASH],
                    ) == Ok::<_, Error>(dir@)
                },
                Err(Error::Io(_)) => !self.input.infallible(),
                Err(e) => {
                    &&& directory_at(self.input.contents(), self.size, seq![SLASH]) == Err::<
                        DirectoryView,
                        Error,
                    >(e)
                    &&& may_open(
                        self.input.contents(),
                        self.size,
                        seq![SLASH],
                        *self.caches,
                        Err::<DirectoryView, Error>(e),
                    )
                },
            },
    {
        DirectoryImpl::open_at_end(&self.input, self.size, root_path(), self.caches.clone())
    }

    /// Use a cache for goodbye tables, or stop using one.
    pub fn set_goodbye_table_cache(
        &mut self,
        cache: Option<Arc<dyn Cache<u64, Vec<GoodbyeItem>>>>,
    )
        ensures
            final(self).input == old(self).input,
            final(self).size == old(self).size,
            final(self).caches.gbt_cache == cache,
    {
        self.caches = Arc::new(Caches { gbt_cache: cache });
    }
}

impl<T: Clone + ReadAt> AccessorImpl<T> {
    /// Open the root directory.
    pub fn open_root(&self) -> (r: Result<DirectoryImpl<T>, Error>)
        requires
            clones_equal::<T>(),
        ensures
            match r {
                Ok(dir) => {
                    &&& dir.well_formed()
                    &&& dir.input == self.input
                    &&& dir.caches == self.caches
                    &&& shared_table(*dir.caches, dir.goodbye_ofs, *dir.table)
                    &&& may_open(
                        self.input.contents(),
                        self.size,
                        seq![SLASH],
                        *self.caches,
                        Ok::<_, Error>(dir@),
                    )
                    &&& frame_at(self.input.contents(), self.size, seq![SLASH]) == Ok::<_, Error>(
                        (DirectoryView { table: Seq::empty(), ..dir@ }),
                    )
                    &&& self.caches.gbt_cache is None ==> directory_at(
                        self.input.contents(),
                        self.size,
                        seq![SLASH],
                    ) == Ok::<_, Error>(dir@)
                },
                Err(Error::Io(_)) => !self.input.infallible(),
                Err(e) => {
                    &&& directory_at(self.input.contents(), self.size, seq![SLASH]) == Err::<
                        DirectoryView,
                        Error,
                    >(e)
                    &&& may_open(
                        self.input.contents(),
                        self.size,
                        seq![SLASH],
                        *self.caches,
                        Err::<DirectoryView, Error>(e),
                    )
                },
            },
    {
        self.open_dir_at_end(self.size)
    }

    /// Allow opening a directory at a specified offset.
    ///
    /// This should only be used with offsets known to point to the end of a directory, otherwise
    /// this usually fails, unless the data otherwise happens to look like a valid directory.
    pub fn open_dir_at_end(&self, offset: u64) -> (r: Result<DirectoryImpl<T>, Error>)
        requires
            clones_equal::<T>(),
        ensures
            match r {
                Ok(dir) => {
                    &&& dir.well_formed()
                    &&& dir.input == self.input
                    &&& dir.caches == self.caches
                    &&& shared_table(*dir.caches, dir.goodbye_ofs, *dir.table)
                    &&& may_open(
                        self.input.contents(),
                        offset,
                        seq![SLASH],
                        *self.caches,
                        Ok::<_, Error>(dir@),
                    )
                    &&& frame_at(self.input.contents(), offset, seq![SLASH]) == Ok::<_, Error>(
                        (DirectoryView { table: Seq::empty(), ..dir@ }),
                    )
                    &&& self.caches.gbt_cache is None ==> directory_at(
                        self.input.contents(),
                        offset,
                        seq![SLASH],
                    ) == Ok::<_, Error>(dir@)
                },
                Err(Error::Io(_)) => !self.input.infallible(),
                Err(e) => {
                    &&& directory_at(self.input.contents(), offset, seq![SLASH]) == Err::<
                        DirectoryView,
                        Error,
                    >(e)
                    &&& may_open(
                        self.input.contents(),
                        offset,
                        seq![SLASH],
                        *self.caches,
                        Err::<DirectoryView, Error>(e),
                    )
                },
            },
    {
        DirectoryImpl::open_at_end(
            clone_input(&self.input),
            offset,
            root_path(),
            self.caches.clone(),
        )
    }

    /// Allow opening a regular file from a specified range.
    ///
    /// Should only be used with `entry_range_info`s originating from the same archive, otherwise
    /// the result will likely fail (or contain unexpected data).
    pub fn open_file_at_range(&self, entry_range_info: &EntryRangeInfo) -> (r: Result<
        FileEntryImpl<T>,
        Error,
    >)
        requires
            clones_equal::<T>(),
            entry_range_info.well_formed(),
        ensures
            ({
                let expected = entry_in(
                    self.input.contents(),
                    entry_range_info.entry_range.start,
                    entry_range_info.entry_range.end,
                    Seq::empty(),
                );
                match r {
                    Ok(file) => {
                        &&& file.input == self.input
                        &&& file.caches == self.caches
                        &&& file.entry_range_info == *entry_range_info
                        &&& expected matches Ok((_, entry)) && entry == file.entry@
                    },
                    Err(Error::Io(_)) => !self.input.infallible(),
                    Err(e) => expected == Err::<(DecoderView, EntryView), Error>(e),
                }
            }),
    {
        let path: Vec<u8> = Vec::new();
        match decode_entry_in(
            clone_input(&self.input),
            entry_range_info.entry_range.start..entry_range_info.entry_range.end,
            path,
        ) {
            Ok((entry, _decoder)) => Ok(
                FileEntryImpl {
                    input: clone_input(&self.input),
                    entry,
                    entry_range_info: entry_range_info.clone(),
                    caches: self.caches.clone(),
                },
            ),
            Err(e) => Err(e),
        }
    }

    /// Allow opening arbitrary contents from a specific range.
    pub fn open_contents_at_range(&self, range: Range<u64>) -> (r: FileContentsImpl<T>)
        requires
            clones_equal::<T>(),
        ensures
            r.input == self.input,
            r.range == range,
    {
        FileContentsImpl::new(clone_input(&self.input), range)
    }

    /// Following a hardlink.
    pub fn follow_hardlink(&self, entry: &FileEntryImpl<T>) -> (r: Result<
        FileEntryImpl<T>,
        Error,
    >)
        requires
            clones_equal::<T>(),
        ensures
            match r {
                Ok(file) => {
                    &&& file.input == self.input
                    &&& file.caches == self.caches
                    &&& link_target(self.input.contents(), self.size, entry@) == Ok::<_, Error>(
                        file@,
                    )
                },
                Err(Error::Io(_)) => !self.input.infallible(),
                Err(e) => link_target(self.input.contents(), self.size, entry@) == Err::<
                    FileView,
                    Error,
                >(e),
            },
            link_place(entry@) matches Err(e) ==> r == Err::<FileEntryImpl<T>, Error>(e),
    {
        let link_offset: u64 = match &entry.entry.kind {
            EntryKind::Hardlink(link) => link.offset,
            _ => {
                return Err(Error::NotAHardlink);
            },
        };
        let entry_file_offset: u64 = match entry.entry_range_info.filename_header_offset {
            Some(offset) => offset,
            None => {
                return Err(Error::NoFilenameHeader);
            },
        };
        if link_offset > entry_file_offset {
            return Err(Error::InvalidLinkTarget);
        }
        self.open_file_named_at(entry_file_offset - link_offset)
    }

    /// Read the header, it should be a FILENAME, then skip over it and its length. What follows
    /// should be a regular file.
    fn open_file_named_at(&self, offset: u64) -> (r: Result<FileEntryImpl<T>, Error>)
        requires
            clones_equal::<T>(),
        ensures
            match r {
                Ok(file) => {
                    &&& file.input == self.input
                    &&& file.caches == self.caches
                    &&& file_named_at(self.input.contents(), self.size, offset) == Ok::<_, Error>(
                        file@,
                    )
                },
                Err(Error::Io(_)) => !self.input.infallible(),
                Err(e) => file_named_at(self.input.contents(), self.size, offset) == Err::<
                    FileView,
                    Error,
                >(e),
            },
    {
        let header: Header = match read_entry_at(&self.input, offset) {
            Ok(header) => header,
            Err(e) => {
                return Err(e);
            },
        };
        match header.check_header_size() {
            Ok(()) => {},
            Err(e) => {
                return Err(e);
            },
        }
        if header.htype != PXAR_FILENAME {
            return Err(Error::ExpectedFilename { htype: header.htype });
        }
        if header.full_size() > u64::MAX - offset || offset + header.full_size() >= self.size {
            return Err(Error::InvalidLinkTarget);
        }
        let start: u64 = offset + header.full_size();
        let mut file = match self.open_file_at_range(
            &EntryRangeInfo {
                filename_header_offset: Some(offset),
                entry_range: start..self.size,
            },
        ) {
            Ok(file) => file,
            Err(e) => {
                return Err(e);
            },
        };
        match file.content_range() {
            Ok(Some(range)) => {
                file.entry_range_info.entry_range.end = range.end;
                Ok(file)
            },
            Ok(None) => Err(Error::LinkTargetNotAFile),
            Err(e) => Err(e),
        }
    }
}

} // verus!
