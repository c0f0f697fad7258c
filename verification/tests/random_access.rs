//! Finding files in an archive without reading all of it.

use std::collections::HashMap;
use std::sync::{Arc, Mutex};

use pxar::accessor::cache::Cache;
use pxar::accessor::sync::{Accessor, FileEntry};
use pxar::accessor::{EntryRangeInfo, ReadAt};
use pxar::decoder::sync::StandardReader;
use pxar::encoder::sync::Encoder;
use pxar::errors::Error;
use pxar::format::mode;
use pxar::format::wire::Wire;
use pxar::format::{GoodbyeItem, Header};
use pxar::{EntryKind, Metadata};

fn dir() -> Metadata {
    Metadata::dir_builder(0o755).build()
}

fn file() -> Metadata {
    Metadata::file_builder(0o644).build()
}

/// An archive with a directory of `n` files, a hard link and an empty directory.
fn archive(n: usize) -> Vec<u8> {
    let mut encoder = Encoder::from_std(Vec::new(), &dir()).unwrap();
    encoder.create_directory(b"files", &dir()).unwrap();
    let mut last = None;
    for i in 0..n {
        let contents = format!("contents of {}", i);
        last = Some(
            encoder
                .add_file(
                    &file(),
                    format!("file{}", i).as_bytes(),
                    contents.len() as u64,
                    &mut StandardReader::new(contents.as_bytes()),
                )
                .unwrap(),
        );
    }
    encoder.finish().unwrap();
    if let Some(last) = last {
        encoder.add_hardlink(b"link", b"/files/last", last).unwrap();
    }
    encoder.create_directory(b"empty", &dir()).unwrap();
    encoder.finish().unwrap();
    encoder
        .add_fifo(&Metadata::builder(mode::IFIFO).build(), b"fifo")
        .unwrap();
    encoder.finish().unwrap();
    encoder.close().unwrap().archive().inner.clone()
}

fn accessor(bytes: &[u8]) -> Accessor<&[u8]> {
    Accessor::new(bytes, bytes.len() as u64).unwrap()
}

fn contents(file: &FileEntry<&[u8]>) -> Vec<u8> {
    let mut out = Vec::new();
    file.contents().unwrap().read_to_end(&mut out).unwrap();
    out
}

#[test]
fn every_file_is_found() {
    for n in [1, 2, 3, 10, 57] {
        let bytes = archive(n);
        let accessor = accessor(&bytes);
        let root = accessor.open_root().unwrap();
        for i in 0..n {
            let path = format!("files/file{}", i);
            let file = root.lookup(path.as_bytes()).unwrap().unwrap();
            assert_eq!(file.entry().path(), format!("/{}", path).as_bytes());
            assert_eq!(contents(&file), format!("contents of {}", i).as_bytes());
        }
        let missing = format!("files/file{}", n);
        assert!(root.lookup(missing.as_bytes()).unwrap().is_none());
        assert!(root.lookup(b"missing/file0").unwrap().is_none());
    }
}

#[test]
fn directories_can_be_gone_through() {
    let bytes = archive(9);
    let accessor = accessor(&bytes);
    let files = accessor
        .open_root()
        .unwrap()
        .lookup(b"files")
        .unwrap()
        .unwrap()
        .enter_directory()
        .unwrap();
    assert_eq!(files.entry_count(), 9);
    assert_eq!(files.read_dir().count(), 9);
    assert_eq!(files.read_dir().skip(4).count(), 5);
    assert_eq!(files.read_dir().skip(9).count(), 0);
    assert_eq!(files.read_dir().skip(100).count(), 0);
    let mut some = files.read_dir();
    for _ in 0..3 {
        assert!(some.next().unwrap().is_ok());
    }
    assert_eq!(some.count(), 6);
    let mut names = Vec::new();
    let mut entries = files.read_dir();
    while let Some(entry) = entries.next() {
        let entry = entry.unwrap();
        let file = entry.decode_entry().unwrap();
        assert_eq!(file.entry().file_name(), entry.file_name());
        names.push(entry.file_name().to_vec());
    }
    assert!(entries.next().is_none());
    let mut skipped = files.read_dir().skip(7);
    assert_eq!(skipped.next().unwrap().unwrap().file_name(), &names[7][..]);
    assert!(files.read_dir().skip(100).next().is_none());
    names.sort();
    let expected: Vec<Vec<u8>> = (0..9).map(|i| format!("file{}", i).into_bytes()).collect();
    assert_eq!(names, expected);
}

#[test]
fn directories_can_be_decoded() {
    let bytes = archive(3);
    let accessor = accessor(&bytes);
    let root = accessor.open_root().unwrap();
    let mut decoder = root.decode_full().unwrap();
    let mut paths = Vec::new();
    while let Some(entry) = decoder.next() {
        let entry = entry.unwrap();
        if let EntryKind::File { size, offset } = entry.kind() {
            let start = offset.unwrap() as usize;
            let number = entry.file_name().last().unwrap();
            let mut expected = b"contents of ".to_vec();
            expected.push(*number);
            assert_eq!(bytes[start..start + *size as usize], expected);
        }
        paths.push(entry.path().to_vec());
    }
    assert_eq!(
        paths,
        [
            &b"/files"[..],
            b"/files/file0",
            b"/files/file1",
            b"/files/file2",
            b"/link",
            b"/empty",
            b"/fifo",
        ]
    );
    let this = root.lookup_self().unwrap();
    assert!(this.entry().is_dir());
    assert_eq!(this.entry().path(), b"/");
    assert_eq!(this.entry_range_info().filename_header_offset, None);
}

#[test]
fn directories_have_to_be_directories() {
    let fifo = Metadata::builder(mode::IFIFO).build();
    let mut bytes = Header::with_content_size(pxar::format::PXAR_ENTRY, 40).to_bytes();
    bytes.extend(fifo.stat.to_bytes());
    let none = GoodbyeItem {
        hash: 0,
        offset: 0,
        size: 0,
    };
    bytes.extend(table(none, tail(56, 64)));
    let accessor = accessor(&bytes);
    let root = accessor.open_root().unwrap();
    assert!(matches!(
        root.lookup_self().unwrap().entry().kind(),
        EntryKind::Fifo
    ));
    assert!(matches!(
        root.decode_full(),
        Err(Error::DirectoryExpected)
    ));
}

#[test]
fn contents_need_a_position() {
    let bytes = archive(1);
    let accessor = accessor(&bytes);
    let root = accessor.open_root().unwrap();
    let mut file = root.lookup(b"files/file0").unwrap().unwrap();
    assert_eq!(contents(&file), b"contents of 0");
    file.inner.entry.kind = EntryKind::File {
        size: 13,
        offset: None,
    };
    assert!(matches!(file.contents(), Err(Error::NoFileOffset)));
    file.inner.entry.kind = EntryKind::File {
        size: 13,
        offset: Some(u64::MAX - 12),
    };
    assert!(matches!(file.content_range(), Err(Error::OutOfRange)));
}

#[test]
fn paths_are_resolved() {
    let bytes = archive(2);
    let accessor = accessor(&bytes);
    assert_eq!(accessor.size(), bytes.len() as u64);
    let root = accessor.open_root_ref().unwrap();
    assert!(root.lookup(b"").unwrap().is_none());
    assert_eq!(root.lookup(b"/").unwrap().unwrap().entry().path(), b"/");
    assert_eq!(root.lookup(b".").unwrap().unwrap().entry().path(), b"/");
    assert_eq!(
        root.lookup(b"/files//file1/")
            .unwrap()
            .unwrap()
            .into_entry()
            .path(),
        b"/files/file1"
    );
    assert!(matches!(
        root.lookup(b"files/.."),
        Err(Error::ParentDirectory)
    ));
    assert!(matches!(
        root.lookup(b"fifo/file"),
        Err(Error::EnterNonDirectory)
    ));
    let empty = root.lookup(b"empty").unwrap().unwrap();
    assert_eq!(empty.enter_directory().unwrap().entry_count(), 0);
    let fifo = root.lookup(b"fifo").unwrap().unwrap();
    assert!(matches!(fifo.entry().kind(), EntryKind::Fifo));
    assert!(matches!(fifo.contents(), Err(Error::NotAFile)));
    assert_eq!(fifo.content_range().unwrap(), None);
}

#[test]
fn hard_links_can_be_followed() {
    let bytes = archive(5);
    let accessor = accessor(&bytes);
    let root = accessor.open_root().unwrap();
    let link = root.lookup(b"link").unwrap().unwrap();
    assert_eq!(link.entry().get_hardlink(), Some(&b"/files/last"[..]));
    let target = accessor.follow_hardlink(&link).unwrap();
    assert_eq!(contents(&target), b"contents of 4");
    assert!(matches!(
        accessor.follow_hardlink(&target),
        Err(Error::NotAHardlink)
    ));

    // without its place the link leads nowhere
    let mut info = link.entry_range_info().clone();
    info.filename_header_offset = None;
    let lost = accessor.open_file_at_range(&info).unwrap();
    assert!(matches!(
        accessor.follow_hardlink(&lost),
        Err(Error::NoFilenameHeader)
    ));
    info.filename_header_offset = Some(0);
    let lost = accessor.open_file_at_range(&info).unwrap();
    assert!(matches!(
        accessor.follow_hardlink(&lost),
        Err(Error::InvalidLinkTarget)
    ));
}

#[test]
fn hard_links_to_other_things() {
    let mut encoder = Encoder::from_std(Vec::new(), &dir()).unwrap();
    encoder
        .add_fifo(&Metadata::builder(mode::IFIFO).build(), b"fifo")
        .unwrap();
    encoder
        .add_hardlink(b"fifo_link", b"/fifo", pxar::encoder::LinkOffset(56))
        .unwrap();
    encoder
        .add_hardlink(b"root_link", b"/", pxar::encoder::LinkOffset(0))
        .unwrap();
    encoder.finish().unwrap();
    let bytes = encoder.close().unwrap().archive().inner.clone();
    let accessor = accessor(&bytes);
    let root = accessor.open_root().unwrap();
    let link = root.lookup(b"fifo_link").unwrap().unwrap();
    assert!(matches!(
        accessor.follow_hardlink(&link),
        Err(Error::LinkTargetNotAFile)
    ));
    let link = root.lookup(b"root_link").unwrap().unwrap();
    assert!(matches!(
        accessor.follow_hardlink(&link),
        Err(Error::ExpectedFilename {
            htype: pxar::format::PXAR_ENTRY
        })
    ));
}

#[test]
fn files_can_be_opened_by_their_place() {
    let bytes = archive(2);
    let accessor = accessor(&bytes);
    let root = accessor.open_root().unwrap();
    let found = root.lookup(b"files/file1").unwrap().unwrap();
    let info: &EntryRangeInfo = found.entry_range_info();
    let again = accessor.open_file_at_range(info).unwrap();
    assert_eq!(again.entry().path(), b"");
    assert_eq!(contents(&again), b"contents of 1");
    let range = found.content_range().unwrap().unwrap();
    assert_eq!(&bytes[range.start as usize..range.end as usize], b"contents of 1");

    let mut part = accessor.open_contents_at_range(range.start + 9..range.end);
    let mut buf = [0; 3];
    assert_eq!(part.read(&mut buf).unwrap(), 3);
    assert_eq!(&buf, b"of ");
    assert_eq!(part.read(&mut buf).unwrap(), 1);
    assert_eq!(part.read(&mut buf).unwrap(), 0);

    let files = root.lookup(b"files").unwrap().unwrap();
    let end = files.entry_range_info().entry_range.end;
    let dir = accessor.open_dir_at_end(end).unwrap();
    assert_eq!(dir.entry_count(), 2);
    assert!(dir.lookup(b"file0").unwrap().is_some());
}

/// Remembers tables, and how often they were asked for.
#[derive(Default)]
struct Tables {
    tables: Mutex<HashMap<u64, Arc<Vec<GoodbyeItem>>>>,
    hits: Mutex<usize>,
}

impl Cache<u64, Vec<GoodbyeItem>> for Tables {
    fn fetch(&self, key: u64) -> Option<Arc<Vec<GoodbyeItem>>> {
        let found = self.tables.lock().unwrap().get(&key).cloned();
        if found.is_some() {
            *self.hits.lock().unwrap() += 1;
        }
        found
    }

    fn insert(&self, key: u64, value: Arc<Vec<GoodbyeItem>>) {
        self.tables.lock().unwrap().insert(key, value);
    }
}

#[test]
fn tables_are_cached() {
    let bytes = archive(3);
    let mut accessor = accessor(&bytes);
    let tables = Arc::new(Tables::default());
    accessor.set_goodbye_table_cache(Some(tables.clone()));
    for _ in 0..3 {
        let root = accessor.open_root().unwrap();
        assert!(root.lookup(b"files/file2").unwrap().is_some());
    }
    assert_eq!(tables.tables.lock().unwrap().len(), 2);
    assert_eq!(*tables.hits.lock().unwrap(), 4);
    accessor.set_goodbye_table_cache(None);
    assert!(accessor.open_root().is_ok());
    assert_eq!(*tables.hits.lock().unwrap(), 4);
}

/// Hands out an empty table for every directory but the root, and remembers what it was asked for.
struct Empty {
    root: u64,
    asked: Mutex<Vec<u64>>,
}

impl Cache<u64, Vec<GoodbyeItem>> for Empty {
    fn fetch(&self, key: u64) -> Option<Arc<Vec<GoodbyeItem>>> {
        self.asked.lock().unwrap().push(key);
        if key == self.root {
            None
        } else {
            Some(Arc::new(Vec::new()))
        }
    }

    fn insert(&self, _key: u64, _value: Arc<Vec<GoodbyeItem>>) {}
}

#[test]
fn a_cached_table_does_for_one_without_items() {
    // a goodbye item with nothing but a header, and a tail in what should be its table
    let mut bytes = vec![0; 16];
    bytes.extend(tail(0, 16).to_bytes());
    let at = bytes.len() as u64 - 16;
    let mut accessor = accessor(&bytes);
    assert!(matches!(
        accessor.open_root(),
        Err(Error::InvalidGoodbyeTableSize { size: 0 })
    ));
    let cache = Arc::new(Empty {
        root: u64::MAX,
        asked: Mutex::new(Vec::new()),
    });
    accessor.set_goodbye_table_cache(Some(cache.clone()));
    assert_eq!(accessor.open_root().unwrap().entry_count(), 0);
    assert_eq!(*cache.asked.lock().unwrap(), [at]);
}

#[test]
fn the_cache_is_asked_before_the_size_is_checked() {
    let mut bytes = vec![0; 16];
    bytes.extend(tail(0, 17).to_bytes());
    let at = bytes.len() as u64 - 17;
    let mut accessor = accessor(&bytes);
    let cache = Arc::new(Empty {
        root: u64::MAX,
        asked: Mutex::new(Vec::new()),
    });
    accessor.set_goodbye_table_cache(Some(cache.clone()));
    assert!(matches!(
        accessor.open_root(),
        Err(Error::InvalidGoodbyeTableSize { size: 1 })
    ));
    assert_eq!(*cache.asked.lock().unwrap(), [at]);
}

#[test]
fn lookups_go_by_the_tables_of_the_cache() {
    let bytes = archive(3);
    let mut accessor = accessor(&bytes);
    let root = accessor.open_root().unwrap();
    let files = root.lookup(b"files").unwrap().unwrap();
    let at = files.enter_directory().unwrap().inner.goodbye_ofs;
    assert!(root.lookup(b"files/file2").unwrap().is_some());

    let cache = Arc::new(Empty {
        root: root.inner.goodbye_ofs,
        asked: Mutex::new(Vec::new()),
    });
    accessor.set_goodbye_table_cache(Some(cache.clone()));
    let root = accessor.open_root().unwrap();
    assert!(root.lookup(b"files").unwrap().is_some());
    assert!(root.lookup(b"files/file2").unwrap().is_none());
    assert_eq!(
        *cache.asked.lock().unwrap(),
        [root.inner.goodbye_ofs, at]
    );

    // none of these gets as far as a second directory
    assert!(matches!(root.lookup(b"../x"), Err(Error::ParentDirectory)));
    assert!(root.lookup(b"missing/x").unwrap().is_none());
    assert!(matches!(
        root.lookup(b"fifo/x"),
        Err(Error::EnterNonDirectory)
    ));
    assert_eq!(cache.asked.lock().unwrap().len(), 2);
}

/// Bytes that are shared by whoever has a clone.
#[derive(Clone)]
struct Shared(Arc<Vec<u8>>);

impl ReadAt for Shared {
    fn read_at(&self, buf: &mut [u8], offset: u64) -> Result<usize, std::io::Error> {
        (&self.0[..]).read_at(buf, offset)
    }
}

#[test]
fn clones_of_an_input_read_the_same_archive() {
    let bytes = archive(3);
    let size = bytes.len() as u64;
    let file = {
        let accessor = Accessor::new(Shared(Arc::new(bytes)), size).unwrap();
        let root = accessor.open_root().unwrap();
        let link = root.lookup(b"link").unwrap().unwrap();
        accessor.follow_hardlink(&link).unwrap()
    };
    let mut out = Vec::new();
    file.contents().unwrap().read_to_end(&mut out).unwrap();
    assert_eq!(out, b"contents of 2");
}

/// The end of a directory: a goodbye table with one item and a tail.
fn table(item: GoodbyeItem, tail: GoodbyeItem) -> Vec<u8> {
    let mut out = Header::with_content_size(pxar::format::PXAR_GOODBYE, 48).to_bytes();
    out.extend(item.to_bytes());
    out.extend(tail.to_bytes());
    out
}

fn tail(offset: u64, size: u64) -> GoodbyeItem {
    GoodbyeItem {
        hash: pxar::format::PXAR_GOODBYE_TAIL_MARKER,
        offset,
        size,
    }
}

#[test]
fn broken_tails_are_refused() {
    let open = |bytes: &[u8]| accessor(bytes).open_root().map(|_| ());
    let none = GoodbyeItem {
        hash: 0,
        offset: 0,
        size: 0,
    };
    assert!(matches!(
        Accessor::new(&[0; 23][..], 23),
        Err(Error::ArchiveTooSmall)
    ));
    assert!(matches!(
        open(&table(none, none)),
        Err(Error::GoodbyeTailMarkerMissing)
    ));
    assert!(matches!(
        open(&table(none, tail(0, 65))),
        Err(Error::GoodbyeTailSizeOutOfRange)
    ));
    assert!(matches!(
        open(&table(none, tail(1, 64))),
        Err(Error::GoodbyeOffsetOutOfRange)
    ));
    assert!(matches!(
        open(&table(none, tail(0, 63))),
        Err(Error::InvalidGoodbyeTableSize { size: 47 })
    ));
    assert!(matches!(
        open(&table(none, tail(0, 7))),
        Err(Error::InvalidGoodbyeTableSize { size: 0 })
    ));
    let bytes = table(none, tail(0, 64));
    assert!(open(&bytes).is_ok());
    assert!(matches!(
        accessor(&bytes).open_dir_at_end(23),
        Err(Error::GoodbyeTailMissing)
    ));
    assert!(matches!(
        accessor(&bytes).open_dir_at_end(65),
        Err(Error::UnexpectedEof)
    ));
}

#[test]
fn broken_items_are_refused() {
    let lookup = |before: &[u8], offset: u64, size: u64| {
        let mut bytes = before.to_vec();
        let mut item = GoodbyeItem::new(b"name", offset, size);
        item.size = size;
        bytes.extend(table(item, tail(before.len() as u64, 64)));
        let result = accessor(&bytes).open_root().unwrap().lookup(b"name");
        result.map(|found| found.is_some())
    };
    let mut name = Header::with_content_size(pxar::format::PXAR_FILENAME, 5).to_bytes();
    name.extend(b"name\0");
    assert!(matches!(
        lookup(&name, 22, 21),
        Err(Error::InvalidFileOffset)
    ));
    assert!(matches!(
        lookup(&name, 21, 20),
        Err(Error::InvalidEntryRange {
            start: 21,
            file_ofs: 0,
            size: 20
        })
    ));
    assert!(matches!(lookup(&name, 21, 21), Err(Error::UnexpectedEof)));
    assert!(matches!(
        lookup(&name, 0, 64),
        Err(Error::ExpectedFilename {
            htype: pxar::format::PXAR_GOODBYE
        })
    ));
    let small = Header::with_full_size(pxar::format::PXAR_FILENAME, 15).to_bytes();
    assert!(matches!(
        lookup(&small, 16, 16),
        Err(Error::HeaderTooSmall {
            htype: pxar::format::PXAR_FILENAME,
            full_size: 15
        })
    ));
    let mut empty = Header::with_content_size(pxar::format::PXAR_FILENAME, 1).to_bytes();
    empty.push(0);
    assert!(matches!(lookup(&empty, 17, 17), Err(Error::EmptyName)));
    let mut slash = Header::with_content_size(pxar::format::PXAR_FILENAME, 4).to_bytes();
    slash.extend(b"a/b\0");
    assert!(matches!(
        lookup(&slash, 20, 20),
        Err(Error::InvalidFileName)
    ));
    let mut open_ended = Header::with_content_size(pxar::format::PXAR_FILENAME, 4).to_bytes();
    open_ended.extend(b"name");
    assert!(matches!(
        lookup(&open_ended, 20, 20),
        Err(Error::MissingTerminatingZero)
    ));
}
