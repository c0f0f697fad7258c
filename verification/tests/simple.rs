use std::collections::HashMap;

use pxar::accessor::sync as accessor;
use pxar::decoder::sync as decoder;
use pxar::decoder::sync::StandardReader;
use pxar::decoder::SeqRead;
use pxar::encoder::sync as encoder;
use pxar::encoder::{LinkOffset, SeqWrite};
use pxar::format::{mode, Device};
use pxar::EntryKind as PxarEntryKind;
use pxar::Metadata;

/// Hardlink information we use while encoding pxar archives.
struct HardlinkInfo {
    link: LinkOffset,
    path: String,
}

/// Mapping from `Entry.link_key` to its produced `HardlinkInfo`.
type HardlinkList = HashMap<String, HardlinkInfo>;

/// Our virtual file system's file entry types.
#[derive(Debug, Eq, PartialEq)]
enum EntryKind {
    Invalid,
    File(Vec<u8>),
    Directory(Vec<Entry>),
    Symlink(String),
    Hardlink(String),
    Device(Device),
    Socket,
    Fifo,
}

/// A virtual file entry.
#[derive(Debug, Eq)]
struct Entry {
    /// For now we just use strings as those are easier to write down for test cases.
    name: String,

    /// The metadata is the same we have in pxar archives for ease of use.
    metadata: Metadata,

    /// The file's kind & contents.
    entry: EntryKind,

    /// If we want to make a hardlink to a file, we write a "key" in here by which we can refer
    /// back to it in an `EntryKind::Hardlink`. Note that in order for the tests to work we
    /// currently have to use the canonical file path as key.
    link_key: Option<String>,
}

impl PartialEq for Entry {
    fn eq(&self, other: &Self) -> bool {
        // When decoding we don't get hardlink names back, so we skip those in our eq check.
        self.name == other.name && self.metadata == other.metadata && self.entry == other.entry
    }
}

fn to_string(bytes: &[u8]) -> String {
    String::from_utf8(bytes.to_vec()).expect("non-utf8 name in test")
}

fn join(path: &str, name: &str) -> String {
    if path.ends_with('/') {
        format!("{}{}", path, name)
    } else {
        format!("{}/{}", path, name)
    }
}

impl Entry {
    /// Start a new entry. Takes a file *name* (not a path!). We use builder methods for the
    /// remaining data.
    fn new(name: &str) -> Self {
        Self {
            name: name.to_string(),
            metadata: Metadata::default(),
            entry: EntryKind::Invalid,
            link_key: None,
        }
    }

    /// Add metadata. You can skip this for hardlinks, but note that for other files you'll want to
    /// have metadata with the correct file mode bits at least.
    fn metadata(mut self, metadata: impl Into<Metadata>) -> Self {
        self.metadata = metadata.into();
        self
    }

    /// Fill in the entry kind.
    fn entry(mut self, entry: EntryKind) -> Self {
        self.entry = entry;
        self
    }

    /// NOTE: For test cases to be equal via the `==` comparison link keys must be equal to the full
    /// canonical path, as decoded hardlinks will use the `entry.path()` from the pxar decoder as
    /// value for `EntryKind::Hardlink`.
    fn link_key(mut self, key: impl Into<String>) -> Self {
        self.link_key = Some(key.into());
        self
    }

    /// Internal assertion that this file must not contain a hard link key.
    fn no_hardlink(&self) {
        if let Some(key) = &self.link_key {
            panic!("hardlink key on entry which may not be hard-linked: {}", key);
        }
    }

    /// Encode this entry (recursively) into a pxar encoder.
    ///
    /// The path should "point" to the parent.
    fn encode_into<T: SeqWrite>(
        &self,
        encoder: &mut encoder::Encoder<T>,
        hardlinks: &mut HardlinkList,
        path: &str,
    ) {
        let name = self.name.as_bytes();
        match &self.entry {
            EntryKind::Invalid => panic!("invalid entry encountered"),

            EntryKind::File(data) => {
                let link: LinkOffset = encoder
                    .add_file(
                        &self.metadata,
                        name,
                        data.len() as u64,
                        &mut StandardReader::new(&data[..]),
                    )
                    .unwrap();
                if let Some(key) = &self.link_key {
                    let info = HardlinkInfo {
                        link,
                        path: join(path, &self.name),
                    };
                    if hardlinks.insert(key.clone(), info).is_some() {
                        panic!("duplicate hardlink key: {}", key);
                    }
                }
            }

            EntryKind::Directory(entries) => {
                self.no_hardlink();
                encoder.create_directory(name, &self.metadata).unwrap();
                let path = join(path, &self.name);
                for entry in entries {
                    entry.encode_into(encoder, hardlinks, &path);
                }
                encoder.finish().unwrap();
            }

            EntryKind::Symlink(path) => {
                self.no_hardlink();
                let _: () = encoder
                    .add_symlink(&self.metadata, name, path.as_bytes())
                    .unwrap();
            }

            EntryKind::Hardlink(key) => {
                self.no_hardlink();
                if let Some(info) = hardlinks.get(key) {
                    let _: () = encoder
                        .add_hardlink(name, info.path.as_bytes(), info.link)
                        .unwrap();
                } else {
                    panic!("missing hardlink target key: {}", key);
                }
            }

            EntryKind::Device(device) => {
                self.no_hardlink();
                let _: () = encoder.add_device(&self.metadata, name, *device).unwrap();
            }

            EntryKind::Fifo => {
                self.no_hardlink();
                let _: () = encoder.add_fifo(&self.metadata, name).unwrap();
            }

            EntryKind::Socket => {
                self.no_hardlink();
                let _: () = encoder.add_socket(&self.metadata, name).unwrap();
            }
        }
    }

    /// Decode an entry from a pxar decoder.
    fn decode_from<T: SeqRead>(decoder: &mut decoder::Decoder<T>) -> Entry {
        // The decoder linearly goes through the entire archive recursiveley, we need to know when
        // a directory ends:
        decoder.enable_goodbye_entries(true);

        Self::decode_root(decoder)
    }

    fn decode_root<T: SeqRead>(decoder: &mut decoder::Decoder<T>) -> Entry {
        let item = decoder.next().expect("empty archive?").unwrap();

        match item.kind() {
            PxarEntryKind::Directory => (),
            other => panic!("invalid entry kind for root node: {:?}", other),
        }

        let mut root = Entry::new("/").metadata(item.metadata().clone());
        root.decode_directory(decoder);
        root
    }

    fn decode_directory<T: SeqRead>(&mut self, decoder: &mut decoder::Decoder<T>) {
        let mut contents = Vec::new();

        while let Some(item) = decoder.next() {
            let item = item.unwrap();
            let make_entry = || -> Entry {
                Entry::new(&to_string(item.file_name()))
                    .metadata(item.metadata().clone())
                    .link_key(to_string(item.path()))
            };
            match item.kind() {
                PxarEntryKind::GoodbyeTable => break,
                PxarEntryKind::File { .. } => {
                    let mut data = Vec::new();
                    decoder
                        .contents()
                        .expect("failed to get contents for file entry")
                        .read_to_end(&mut data)
                        .unwrap();
                    contents.push(make_entry().entry(EntryKind::File(data)));
                }
                PxarEntryKind::Directory => {
                    let mut dir = make_entry();
                    dir.decode_directory(decoder);
                    contents.push(dir);
                }
                PxarEntryKind::Symlink(link) => {
                    contents.push(make_entry().entry(EntryKind::Symlink(to_string(link.as_os_str()))));
                }
                PxarEntryKind::Hardlink(link) => {
                    contents.push(
                        make_entry().entry(EntryKind::Hardlink(to_string(link.as_os_str()))),
                    );
                }
                PxarEntryKind::Device(device) => {
                    contents.push(make_entry().entry(EntryKind::Device(*device)));
                }
                PxarEntryKind::Fifo => {
                    contents.push(make_entry().entry(EntryKind::Fifo));
                }
                PxarEntryKind::Socket => {
                    contents.push(make_entry().entry(EntryKind::Socket));
                }
            }
        }

        self.entry = EntryKind::Directory(contents);
    }
}

fn test_fs() -> Entry {
    Entry::new("/")
        .metadata(Metadata::dir_builder(0o755))
        .entry(EntryKind::Directory(vec![
            Entry::new("home")
                .metadata(Metadata::dir_builder(0o755))
                .entry(EntryKind::Directory(vec![Entry::new("user")
                    .metadata(Metadata::dir_builder(0o700).owner(1000, 1000))
                    .entry(EntryKind::Directory(vec![
                        Entry::new(".profile")
                            .metadata(Metadata::file_builder(0o644).owner(1000, 1000))
                            .entry(EntryKind::File(b"#umask 022".to_vec())),
                        Entry::new("data")
                            .metadata(Metadata::file_builder(0o644).owner(1000, 1000))
                            .entry(EntryKind::File(b"a file from a user".to_vec())),
                    ]))])),
            Entry::new("bin")
                .metadata(Metadata::builder(mode::IFLNK | 0o777))
                .entry(EntryKind::Symlink("usr/bin".to_string())),
            Entry::new("usr")
                .metadata(Metadata::dir_builder(0o755))
                .entry(EntryKind::Directory(vec![Entry::new("bin")
                    .metadata(Metadata::dir_builder(0o755))
                    .entry(EntryKind::Directory(vec![
                        Entry::new("bzip2")
                            .metadata(Metadata::file_builder(0o755))
                            .entry(EntryKind::File(b"This is the bzip2 executable".to_vec()))
                            .link_key("/usr/bin/bzip2"),
                        Entry::new("cat")
                            .metadata(Metadata::file_builder(0o755))
                            .entry(EntryKind::File(b"This is another executable".to_vec())),
                        Entry::new("bunzip2")
                            .entry(EntryKind::Hardlink("/usr/bin/bzip2".to_string())),
                    ]))])),
            Entry::new("dev")
                .metadata(Metadata::dir_builder(0o755))
                .entry(EntryKind::Directory(vec![
                    Entry::new("null")
                        .metadata(Metadata::builder(mode::IFCHR | 0o666))
                        .entry(EntryKind::Device(Device { major: 1, minor: 3 })),
                    Entry::new("zero")
                        .metadata(Metadata::builder(mode::IFCHR | 0o666))
                        .entry(EntryKind::Device(Device { major: 1, minor: 5 })),
                    Entry::new("loop0")
                        .metadata(Metadata::builder(mode::IFBLK | 0o666))
                        .entry(EntryKind::Device(Device { major: 7, minor: 0 })),
                    Entry::new("loop1")
                        .metadata(Metadata::builder(mode::IFBLK | 0o666))
                        .entry(EntryKind::Device(Device { major: 7, minor: 1 })),
                ])),
            Entry::new("run")
                .metadata(Metadata::dir_builder(0o755))
                .entry(EntryKind::Directory(vec![
                    Entry::new("fifo0")
                        .metadata(Metadata::builder(mode::IFIFO | 0o666))
                        .entry(EntryKind::Fifo),
                    Entry::new("sock0")
                        .metadata(Metadata::builder(mode::IFSOCK | 0o600))
                        .entry(EntryKind::Socket),
                ])),
        ]))
}

fn encode_directory<T: SeqWrite>(encoder: &mut encoder::Encoder<T>, entry: &Entry) {
    let mut hardlinks = HardlinkList::new();

    match &entry.entry {
        EntryKind::Directory(entries) => {
            for entry in entries {
                entry.encode_into(encoder, &mut hardlinks, "/");
            }
        }
        _ => panic!("encode_directory on a non-directory"),
    }
}

#[test]
fn test1() {
    let test_fs = test_fs();
    let mut encoder = encoder::Encoder::from_std(Vec::<u8>::new(), &test_fs.metadata)
        .expect("failed to create encoder");
    encode_directory(&mut encoder, &test_fs);
    encoder
        .finish()
        .expect("failed to finish encoding the pxar archive");
    let file = encoder.close().unwrap().archive().inner.clone();

    assert!(!file.is_empty(), "encoder did not write any data");

    let mut decoder = decoder::Decoder::from_std(&file[..]).expect("failed to create decoder");
    let decoded_fs = Entry::decode_from(&mut decoder);

    assert_eq!(test_fs, decoded_fs);

    let accessor = accessor::Accessor::new(&file[..], file.len() as u64)
        .expect("failed to create random access reader for encoded archive");

    check_bunzip2(&accessor);
    check_run_special_files(&accessor);
}

fn check_bunzip2(accessor: &accessor::Accessor<&[u8]>) {
    let root = accessor
        .open_root()
        .expect("failed to open root of encoded archive");

    let bunzip2 = root
        .lookup(b"usr/bin/bunzip2")
        .expect("failed to lookup usr/bin/bunzip2 in test data")
        .expect("missing usr/bin/bunzip2 in test data");
    match bunzip2.entry().kind() {
        PxarEntryKind::Hardlink(link) => assert_eq!(link.as_os_str(), b"/usr/bin/bzip2"),
        _ => panic!("expected usr/bin/bunzip2 in test data to be a hardlink"),
    }
    let bzip2 = accessor
        .follow_hardlink(&bunzip2)
        .expect("failed to follow usr/bin/bunzip2 hardlink in test data");
    assert!(bzip2.entry().is_regular_file());
    let mut content = Vec::new();
    let len = bzip2
        .contents()
        .expect("failed to get contents of bzip2 file")
        .read_to_end(&mut content)
        .expect("failed to read bzip2 file into a string");
    match bzip2.entry().kind() {
        PxarEntryKind::File { size, .. } => assert_eq!(len as u64, *size),
        _ => panic!("expected usr/bin/bzip2 in test data to be a regular file"),
    }

    assert_eq!(to_string(&content), "This is the bzip2 executable");
}

fn check_run_special_files(accessor: &accessor::Accessor<&[u8]>) {
    let rundir = accessor
        .open_root()
        .expect("failed to open root of encoded archive")
        .lookup(b"run")
        .expect("failed to open /run in encoded archive")
        .expect("missing /run in encoded archive")
        .enter_directory()
        .expect("expected /run to be a directory in the test archive");

    assert_eq!(rundir.entry_count(), 2, "expected 2 entries in /run");

    let mut rd = rundir.read_dir();
    let fifo0 = rd
        .next()
        .expect("expected 'fifo0' entry in rundir")
        .expect("failed to get first (fifo0) entry in test archive /run directory");
    assert_eq!(
        fifo0.file_name(),
        b"fifo0",
        "expected first file in /run to be fifo0"
    );

    let entry = fifo0
        .decode_entry()
        .expect("failed to decode entry for fifo0");
    assert!(matches!(entry.entry().kind(), PxarEntryKind::Fifo));

    let sock0 = rd
        .next()
        .expect("expected 'sock0' entry in rundir")
        .expect("failed to get second (sock0) entry in test archive /run directory");
    assert_eq!(
        sock0.file_name(),
        b"sock0",
        "expected second file in /run to be sock0"
    );

    let entry = sock0
        .decode_entry()
        .expect("failed to decode entry for sock0");
    assert!(matches!(entry.entry().kind(), PxarEntryKind::Socket));
}
