//! What random access to an archive means.

use vstd::prelude::*;

use crate::accessor::adapter::range_stream;
use crate::accessor::cache::Cache;
use crate::accessor::read_at::bytes_at;
use crate::accessor::Caches;
use crate::binary_tree_array::hits;
use crate::decoder::model::{initial_decoder, DecoderView};
use crate::entry::{EntryView, KindView};
use crate::errors::Error;
use crate::format::goodbye::{filename_hash, GOODBYE_ITEM_SIZE};
use crate::format::wire::Wire;
use crate::format::{
    header_error, is_legal_component, GoodbyeItem, Header, HEADER_SIZE, PXAR_FILENAME,
    PXAR_GOODBYE_TAIL_MARKER,
};
use crate::path::{components_of, joined, ComponentView};

verus! {

/// An open directory.
#[verifier::ext_equal]
pub struct DirectoryView {
    /// The bytes of the whole archive.
    pub archive: Seq<u8>,
    /// Where the directory's entry starts.
    pub entry_ofs: u64,
    /// Where the directory's goodbye table starts.
    pub goodbye_ofs: u64,
    /// The size from the entry to the end of the goodbye table.
    pub size: u64,
    /// The goodbye table, without the tail.
    pub table: Seq<GoodbyeItem>,
    pub path: Seq<u8>,
}

/// A file of a directory whose name has been read.
#[verifier::ext_equal]
pub struct CursorView {
    pub file_name: Seq<u8>,
    /// Where the file's name starts.
    pub filename_offset: u64,
    /// Where the file's entry starts.
    pub start: u64,
    /// Where the file's entry ends.
    pub end: u64,
}

/// A file whose entry has been read.
#[verifier::ext_equal]
pub struct FileView {
    /// The bytes of the whole archive.
    pub archive: Seq<u8>,
    pub entry: EntryView,
    /// Where the file's entry starts.
    pub start: u64,
    /// Where the file's entry ends.
    pub end: u64,
    /// Where the file's name starts, where that is known.
    pub filename_offset: Option<u64>,
}

/// The last item of the goodbye table of a directory that ends at `end`.
pub open spec fn tail_at(archive: Seq<u8>, end: u64) -> Result<GoodbyeItem, Error> {
    if end < GOODBYE_ITEM_SIZE {
        Err(Error::GoodbyeTailMissing)
    } else {
        match bytes_at(archive, (end - GOODBYE_ITEM_SIZE) as u64, GOODBYE_ITEM_SIZE as nat) {
            Err(e) => Err(e),
            Ok(data) => {
                let tail = GoodbyeItem::from_wire(data);
                if tail.hash != PXAR_GOODBYE_TAIL_MARKER {
                    Err(Error::GoodbyeTailMarkerMissing)
                } else {
                    Ok(tail)
                }
            },
        }
    }
}

/// A directory that ends at `end`, with nothing read yet but the tail.
pub open spec fn frame_at(archive: Seq<u8>, end: u64, path: Seq<u8>) -> Result<
    DirectoryView,
    Error,
> {
    match tail_at(archive, end) {
        Err(e) => Err(e),
        Ok(tail) => if end < tail.size {
            Err(Error::GoodbyeTailSizeOutOfRange)
        } else if end - tail.size < tail.offset {
            Err(Error::GoodbyeOffsetOutOfRange)
        } else {
            Ok(
                DirectoryView {
                    archive,
                    entry_ofs: (end - tail.size - tail.offset) as u64,
                    goodbye_ofs: (end - tail.size) as u64,
                    size: (tail.size + tail.offset) as u64,
                    table: Seq::empty(),
                    path,
                },
            )
        },
    }
}

/// The items in the bytes of a table.
pub open spec fn items_of(data: Seq<u8>) -> Seq<GoodbyeItem> {
    Seq::new(
        data.len() / GOODBYE_ITEM_SIZE as nat,
        |i: int|
            GoodbyeItem::from_wire(
                data.subrange(i * GOODBYE_ITEM_SIZE, (i + 1) * GOODBYE_ITEM_SIZE),
            ),
    )
}

/// The directory that ends at `end`.
pub open spec fn directory_at(archive: Seq<u8>, end: u64, path: Seq<u8>) -> Result<
    DirectoryView,
    Error,
> {
    directory_with(archive, end, path, None)
}

/// What a cache, if there is one, may answer when it is asked for the goodbye table at `key`.
pub open spec fn may_answer(caches: Caches, key: u64, answer: Option<Vec<GoodbyeItem>>) -> bool {
    match caches.gbt_cache {
        None => answer is None,
        Some(cache) => answer matches Some(table) ==> cache.gives(key, table),
    }
}

/// The cache, if there is one, gave this goodbye table or was handed it for later.
pub open spec fn shared_table(caches: Caches, key: u64, table: Vec<GoodbyeItem>) -> bool {
    caches.gbt_cache matches Some(cache) ==> cache.gives(key, table) || cache.took(key, table)
}

/// What may be answered while the directory that ends at `end` is opened: the cache is asked for
/// the table once it is known where that starts.
pub open spec fn answer_at(
    archive: Seq<u8>,
    end: u64,
    path: Seq<u8>,
    caches: Caches,
    answer: Option<Vec<GoodbyeItem>>,
) -> bool {
    match frame_at(archive, end, path) {
        Err(_) => answer is None,
        Ok(dir) => may_answer(caches, dir.goodbye_ofs, answer),
    }
}

/// The directory that ends at `end`, with the goodbye table that the cache answered, or else with
/// the one in the archive.
pub open spec fn directory_with(
    archive: Seq<u8>,
    end: u64,
    path: Seq<u8>,
    answer: Option<Vec<GoodbyeItem>>,
) -> Result<DirectoryView, Error> {
    match frame_at(archive, end, path) {
        Err(e) => Err(e),
        Ok(dir) => match dir.size_error() {
            Some(e) => Err(e),
            None => match answer {
                Some(table) => Ok(DirectoryView { table: table@, ..dir }),
                None => dir.loaded(),
            },
        },
    }
}

/// What may come of opening the directory that ends at `end`.
pub open spec fn may_open(
    archive: Seq<u8>,
    end: u64,
    path: Seq<u8>,
    caches: Caches,
    outcome: Result<DirectoryView, Error>,
) -> bool {
    exists|answer: Option<Vec<GoodbyeItem>>| #[trigger]
        answer_at(archive, end, path, caches, answer) && outcome == directory_with(
            archive,
            end,
            path,
            answer,
        )
}

/// The entry in a part of an archive.
#[verifier::opaque]
pub open spec fn entry_in(archive: Seq<u8>, start: u64, end: u64, path: Seq<u8>) -> Result<
    (DecoderView, EntryView),
    Error,
> {
    match initial_decoder(range_stream(archive, start, end), path, true).next() {
        Ok((d, Some(entry))) => Ok((d, entry)),
        Ok((_, None)) => Err(Error::EofInDirectoryEntry),
        Err(e) => Err(e),
    }
}

/// The name of a file that starts at `file_ofs`, and where the name ends.
pub open spec fn filename_at(archive: Seq<u8>, file_ofs: u64) -> Result<(Seq<u8>, u64), Error> {
    match bytes_at(archive, file_ofs, HEADER_SIZE as nat) {
        Err(e) => Err(e),
        Ok(data) => {
            let head = Header::from_wire(data);
            if head.htype != PXAR_FILENAME {
                Err(Error::ExpectedFilename { htype: head.htype })
            } else if head.full_size < HEADER_SIZE {
                Err(Error::HeaderTooSmall { htype: head.htype, full_size: head.full_size })
            } else if head.full_size - HEADER_SIZE > usize::MAX {
                Err(Error::OutOfRange)
            } else {
                match bytes_at(
                    archive,
                    (file_ofs + HEADER_SIZE) as u64,
                    (head.full_size - HEADER_SIZE) as nat,
                ) {
                    Err(e) => Err(e),
                    Ok(path) => if path.len() == 0 || path.last() != 0 {
                        Err(Error::MissingTerminatingZero)
                    } else if path.len() == 1 {
                        Err(Error::EmptyName)
                    } else if !is_legal_component(path.drop_last()) {
                        Err(Error::InvalidFileName)
                    } else {
                        Ok((path.drop_last(), (file_ofs + head.full_size) as u64))
                    },
                }
            }
        },
    }
}

impl DirectoryView {
    pub open spec fn end_offset(self) -> int {
        self.entry_ofs + self.size
    }

    pub open spec fn table_offset(self) -> int {
        self.goodbye_ofs + HEADER_SIZE
    }

    /// The size of the goodbye table, including the tail. A goodbye item that has no room for its
    /// own header has none for a table.
    pub open spec fn table_size(self) -> u64 {
        if self.table_offset() <= self.end_offset() {
            (self.end_offset() - self.table_offset()) as u64
        } else {
            0
        }
    }

    /// Why a goodbye table cannot be of this size, if so: there is no room for a header, or what
    /// follows it does not consist of whole items.
    pub open spec fn size_error(self) -> Option<Error> {
        if self.end_offset() < self.table_offset() || self.table_size() % GOODBYE_ITEM_SIZE != 0 {
            Some(Error::InvalidGoodbyeTableSize { size: self.table_size() })
        } else {
            None
        }
    }

    /// The number of entries that the goodbye table has room for.
    pub open spec fn table_len(self) -> nat {
        ((self.end_offset() - self.table_offset()) / GOODBYE_ITEM_SIZE as int - 1) as nat
    }

    /// The offsets are those of a directory.
    pub open spec fn well_formed(self) -> bool {
        &&& self.entry_ofs <= self.goodbye_ofs
        &&& self.end_offset() <= u64::MAX
        &&& self.size_error() is None
    }

    /// Read the goodbye table, which has at least a tail.
    pub open spec fn loaded(self) -> Result<Self, Error> {
        let size = self.table_len() * GOODBYE_ITEM_SIZE as nat;
        if self.table_size() < GOODBYE_ITEM_SIZE {
            Err(Error::InvalidGoodbyeTableSize { size: self.table_size() })
        } else if size > usize::MAX {
            Err(Error::OutOfRange)
        } else {
            match bytes_at(self.archive, self.table_offset() as u64, size) {
                Err(e) => Err(e),
                Ok(data) => Ok(DirectoryView { table: items_of(data), ..self }),
            }
        }
    }

    /// Find the name of the file that an item of the table points to.
    pub open spec fn cursor(self, index: int) -> Result<CursorView, Error>
        recommends
            0 <= index < self.table.len(),
    {
        let item = self.table[index];
        if self.goodbye_ofs < item.offset {
            Err(Error::InvalidFileOffset)
        } else {
            let file_ofs = (self.goodbye_ofs - item.offset) as u64;
            match filename_at(self.archive, file_ofs) {
                Err(e) => Err(e),
                Ok((file_name, entry_ofs)) => if file_ofs + item.size > u64::MAX || file_ofs
                    + item.size < entry_ofs {
                    Err(
                        Error::InvalidEntryRange { start: entry_ofs, file_ofs, size: item.size },
                    )
                } else {
                    Ok(
                        CursorView {
                            file_name,
                            filename_offset: file_ofs,
                            start: entry_ofs,
                            end: (file_ofs + item.size) as u64,
                        },
                    )
                },
            }
        }
    }

    /// Read the entry of a file.
    pub open spec fn decode_cursor(self, cursor: CursorView) -> Result<FileView, Error> {
        match entry_in(self.archive, cursor.start, cursor.end, joined(self.path, cursor.file_name)) {
            Err(e) => Err(e),
            Ok((_, entry)) => Ok(
                FileView {
                    archive: self.archive,
                    entry,
                    start: cursor.start,
                    end: cursor.end,
                    filename_offset: Some(cursor.filename_offset),
                },
            ),
        }
    }

    /// Read the directory's own entry.
    pub open spec fn lookup_self(self) -> Result<FileView, Error> {
        match entry_in(self.archive, self.entry_ofs, self.end_offset() as u64, self.path) {
            Err(e) => Err(e),
            Ok((_, entry)) => Ok(
                FileView {
                    archive: self.archive,
                    entry,
                    start: self.entry_ofs,
                    end: self.end_offset() as u64,
                    filename_offset: None,
                },
            ),
        }
    }

    /// Get a decoder for the directory contents.
    pub open spec fn decode_full(self) -> Result<DecoderView, Error> {
        match entry_in(self.archive, self.entry_ofs, self.end_offset() as u64, self.path) {
            Err(e) => Err(e),
            Ok((d, entry)) => if entry.kind is Directory {
                Ok(d)
            } else {
                Err(Error::DirectoryExpected)
            },
        }
    }

    /// Go through the items with the hash of a name, from the `k`-th one on, until one of them
    /// has the name itself.
    pub open spec fn lookup_from(self, name: Seq<u8>, k: nat) -> Result<Option<FileView>, Error>
        decreases hits(self.table, 0, filename_hash(name)).len() - k,
    {
        let found = hits(self.table, 0, filename_hash(name));
        if k >= found.len() {
            Ok(None)
        } else {
            match self.cursor(found[k as int]) {
                Err(e) => Err(e),
                Ok(cursor) => if components_of(cursor.file_name) == components_of(name) {
                    match self.decode_cursor(cursor) {
                        Err(e) => Err(e),
                        Ok(file) => Ok(Some(file)),
                    }
                } else {
                    self.lookup_from(name, k + 1)
                },
            }
        }
    }

    /// Look up a file of this directory by its name.
    pub open spec fn lookup_component(self, name: Seq<u8>) -> Result<Option<FileView>, Error> {
        self.lookup_from(name, 0)
    }

    /// Look up the first of some path components, coming from `cur`.
    pub open spec fn lookup_first(
        self,
        component: ComponentView,
        first: bool,
        cur: Option<FileView>,
    ) -> Result<Option<FileView>, Error> {
        match component {
            ComponentView::Normal(name) => match cur {
                Some(entry) => match entry.enter_directory() {
                    Err(e) => Err(e),
                    Ok(dir) => dir.lookup_component(name),
                },
                None => self.lookup_component(name),
            },
            ComponentView::ParentDir => Err(Error::ParentDirectory),
            ComponentView::RootDir => if first {
                match self.lookup_self() {
                    Ok(file) => Ok(Some(file)),
                    Err(e) => Err(e),
                }
            } else {
                Err(Error::InvalidComponent)
            },
            ComponentView::CurDir => if first {
                match self.lookup_self() {
                    Ok(file) => Ok(Some(file)),
                    Err(e) => Err(e),
                }
            } else {
                Ok(cur)
            },
        }
    }

    /// Look up path components one after the other, coming from `cur`.
    pub open spec fn lookup_components(
        self,
        components: Seq<ComponentView>,
        first: bool,
        cur: Option<FileView>,
    ) -> Result<Option<FileView>, Error>
        decreases components.len(),
    {
        if components.len() == 0 {
            Ok(cur)
        } else {
            match self.lookup_first(components[0], first, cur) {
                Err(e) => Err(e),
                Ok(next) => if next is None && components[0] is Normal {
                    Ok(None)
                } else {
                    self.lookup_components(components.skip(1), false, next)
                },
            }
        }
    }

    /// What may come of looking up the first of some path components, coming from `cur`: where a
    /// directory is entered, the cache may be asked for its table.
    pub open spec fn may_find_first(
        self,
        caches: Caches,
        component: ComponentView,
        first: bool,
        cur: Option<FileView>,
        outcome: Result<Option<FileView>, Error>,
    ) -> bool {
        match (component, cur) {
            (ComponentView::Normal(name), Some(entry)) => if entry.entry.kind is Directory {
                exists|opened: Result<DirectoryView, Error>| #[trigger]
                    may_open(entry.archive, entry.end, entry.entry.path, caches, opened) && outcome
                        == match opened {
                        Err(e) => Err(e),
                        Ok(dir) => dir.lookup_component(name),
                    }
            } else {
                outcome == Err::<Option<FileView>, Error>(Error::EnterNonDirectory)
            },
            _ => outcome == self.lookup_first(component, first, cur),
        }
    }

    /// What may come of looking up path components one after the other, coming from `cur`.
    pub open spec fn may_find_components(
        self,
        caches: Caches,
        components: Seq<ComponentView>,
        first: bool,
        cur: Option<FileView>,
        outcome: Result<Option<FileView>, Error>,
    ) -> bool
        decreases components.len(), 1nat,
    {
        if components.len() == 0 {
            outcome == Ok::<_, Error>(cur)
        } else {
            exists|found: Result<Option<FileView>, Error>| #[trigger]
                self.may_find_first(caches, components[0], first, cur, found) && self.goes_on(
                    caches,
                    components,
                    found,
                    outcome,
                )
        }
    }

    /// What may come of it when this was found for the first of the components.
    pub open spec fn goes_on(
        self,
        caches: Caches,
        components: Seq<ComponentView>,
        found: Result<Option<FileView>, Error>,
        outcome: Result<Option<FileView>, Error>,
    ) -> bool
        decreases components.len(), 0nat,
        when components.len() > 0
    {
        match found {
            Err(e) => outcome == Err::<Option<FileView>, Error>(e),
            Ok(next) => if next is None && components[0] is Normal {
                outcome == Ok::<Option<FileView>, Error>(None)
            } else {
                self.may_find_components(caches, components.skip(1), false, next, outcome)
            },
        }
    }

    /// What may come of looking up a path, with the answers that the cache may give.
    pub open spec fn may_find(
        self,
        caches: Caches,
        path: Seq<u8>,
        outcome: Result<Option<FileView>, Error>,
    ) -> bool {
        self.may_find_components(caches, components_of(path), true, None, outcome)
    }

    /// Look up a path.
    pub open spec fn lookup(self, path: Seq<u8>) -> Result<Option<FileView>, Error> {
        self.lookup_components(components_of(path), true, None)
    }
}

impl FileView {
    /// Open a directory.
    pub open spec fn enter_directory(self) -> Result<DirectoryView, Error> {
        if self.entry.kind is Directory {
            directory_at(self.archive, self.end, self.entry.path)
        } else {
            Err(Error::EnterNonDirectory)
        }
    }

    /// The place of a file's contents in the archive.
    pub open spec fn content_range(self) -> Result<Option<(u64, u64)>, Error> {
        match self.entry.kind {
            KindView::File { size, position } => match position {
                None => Err(Error::NoFileOffset),
                Some(at) => if at + size > u64::MAX {
                    Err(Error::OutOfRange)
                } else {
                    Ok(Some((at, (at + size) as u64)))
                },
            },
            _ => Ok(None),
        }
    }
}

/// The part of an archive between `start` and `end` that is read through a file's contents.
pub open spec fn part_of(archive: Seq<u8>, start: u64, end: u64) -> Seq<u8> {
    range_stream(archive, start, end).unread
}

/// The file that a hard link points to: the distance is counted from the name of the link to the
/// name of the file, which must be a regular one.
pub open spec fn link_target(archive: Seq<u8>, size: u64, link: FileView) -> Result<
    FileView,
    Error,
> {
    match link_place(link) {
        Err(e) => Err(e),
        Ok(offset) => file_named_at(archive, size, offset),
    }
}

/// Where the name of the file that a hard link points to starts.
pub open spec fn link_place(link: FileView) -> Result<u64, Error> {
    match link.entry.kind {
        KindView::Hardlink { offset, .. } => match link.filename_offset {
            None => Err(Error::NoFilenameHeader),
            Some(from) => if offset > from {
                Err(Error::InvalidLinkTarget)
            } else {
                Ok((from - offset) as u64)
            },
        },
        _ => Err(Error::NotAHardlink),
    }
}

/// The regular file whose name starts at `offset`.
pub open spec fn file_named_at(archive: Seq<u8>, size: u64, offset: u64) -> Result<FileView, Error> {
    match bytes_at(archive, offset, HEADER_SIZE as nat) {
        Err(e) => Err(e),
        Ok(data) => {
            let header = Header::from_wire(data);
            match header_error(header) {
                Some(e) => Err(e),
                None => if header.htype != PXAR_FILENAME {
                    Err(Error::ExpectedFilename { htype: header.htype })
                } else if offset + header.full_size >= size {
                    Err(Error::InvalidLinkTarget)
                } else {
                    let start = (offset + header.full_size) as u64;
                    match entry_in(archive, start, size, Seq::empty()) {
                        Err(e) => Err(e),
                        Ok((_, entry)) => {
                            let file = FileView {
                                archive,
                                entry,
                                start,
                                end: size,
                                filename_offset: Some(offset),
                            };
                            match file.content_range() {
                                Err(e) => Err(e),
                                Ok(None) => Err(Error::LinkTargetNotAFile),
                                Ok(Some((_, end))) => Ok(FileView { end, ..file }),
                            }
                        },
                    }
                },
            }
        },
    }
}

} // verus!
