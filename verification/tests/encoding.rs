//! What an encoder writes, and what it refuses.

use pxar::decoder::sync::{Decoder, StandardReader};
use pxar::encoder::sync::{Encoder, StandardWriter};
use pxar::encoder::{EncodeError, LinkOffset, PayloadOffset, SeqWrite};
use pxar::errors::Error;
use pxar::format::acl;
use pxar::format::mode;
use pxar::format::wire::Wire;
use pxar::format::{
    Device, Duration, FormatVersion, GoodbyeItem, Header, StatxTimestamp, XAttr,
};
use pxar::{EntryKind, Metadata, PxarVariant};

type VecEncoder = Encoder<StandardWriter<Vec<u8>>>;

fn dir() -> Metadata {
    Metadata::dir_builder(0o755).build()
}

fn file() -> Metadata {
    Metadata::file_builder(0o644).build()
}

fn encoder() -> VecEncoder {
    Encoder::from_std(Vec::new(), &dir()).unwrap()
}

fn archive(mut encoder: VecEncoder) -> Vec<u8> {
    encoder.finish().unwrap();
    encoder.close().unwrap().archive().inner.clone()
}

fn add(encoder: &mut VecEncoder, name: &[u8], contents: &[u8]) -> LinkOffset {
    encoder
        .add_file(
            &file(),
            name,
            contents.len() as u64,
            &mut StandardReader::new(contents),
        )
        .unwrap()
}

#[test]
fn an_empty_archive() {
    let bytes = archive(encoder());
    // ENTRY with its stat data, GOODBYE with nothing but the tail
    assert_eq!(bytes.len(), 16 + 40 + 16 + 24);
    let header = Header::from_bytes(&bytes[..16]);
    assert_eq!(header.htype, pxar::format::PXAR_ENTRY);
    assert_eq!(header.full_size, 56);
    let header = Header::from_bytes(&bytes[56..72]);
    assert_eq!(header.htype, pxar::format::PXAR_GOODBYE);
    assert_eq!(
        GoodbyeItem::from_bytes(&bytes[72..]),
        GoodbyeItem {
            hash: pxar::format::PXAR_GOODBYE_TAIL_MARKER,
            offset: 56,
            size: 40
        }
    );
    let mut decoder = Decoder::from_std(&bytes).unwrap();
    assert!(decoder.next().unwrap().unwrap().is_dir());
    assert!(decoder.next().is_none());
}

#[test]
fn archives_come_after_what_the_output_holds() {
    let encoder = Encoder::from_std(b"before".to_vec(), &dir()).unwrap();
    let bytes = archive(encoder);
    assert_eq!(&bytes[..6], b"before");
    assert_eq!(bytes[6..], archive(self::encoder()));
}

#[test]
fn everything_comes_back() {
    let metadata = Metadata::file_builder(0o600)
        .owner(1, 2)
        .mtime_unix(Duration { secs: 3, nanos: 4 })
        .xattr(b"user.a", b"1")
        .xattr(b"user.b", b"\x002")
        .acl_user(acl::User::new(5, 6))
        .acl_group(acl::Group::new(7, 8))
        .default_acl_user(acl::User::new(9, 10))
        .default_acl_group(acl::Group::new(11, 12))
        .default_acl(Some(acl::Default {
            user_obj_permissions: acl::Permissions(7),
            group_obj_permissions: acl::Permissions(5),
            other_permissions: acl::Permissions(1),
            mask_permissions: acl::Permissions::no_mask(),
        }))
        .fcaps(Some(b"caps".to_vec()))
        .quota_project_id(Some(13))
        .build();
    assert_eq!(
        metadata.stat.mtime,
        StatxTimestamp { secs: 3, nanos: 4 }
    );
    let mut encoder = encoder();
    encoder
        .add_file(
            &metadata,
            b"file",
            4,
            &mut StandardReader::new(&b"data"[..]),
        )
        .unwrap();
    encoder.create_directory(b"sub", &dir()).unwrap();
    encoder
        .add_symlink(&Metadata::builder(mode::IFLNK).build(), b"link", b"../file")
        .unwrap();
    encoder.finish().unwrap();
    let bytes = archive(encoder);

    let mut decoder = Decoder::from_std(&bytes).unwrap();
    assert_eq!(decoder.next().unwrap().unwrap().metadata(), &dir());
    let entry = decoder.next().unwrap().unwrap();
    assert_eq!(entry.path(), b"/file");
    assert_eq!(entry.metadata(), &metadata);
    assert_eq!(entry.metadata().xattrs[1].data(), b"user.b\0\x002");
    let mut contents = Vec::new();
    decoder
        .contents()
        .unwrap()
        .read_to_end(&mut contents)
        .unwrap();
    assert_eq!(contents, b"data");
    let entry = decoder.next().unwrap().unwrap();
    assert_eq!(entry.path(), b"/sub");
    assert!(entry.is_dir());
    let entry = decoder.next().unwrap().unwrap();
    assert_eq!(entry.path(), b"/sub/link");
    assert_eq!(entry.get_symlink(), Some(&b"../file"[..]));
    assert!(decoder.next().is_none());
}

#[test]
fn positions_count_the_bytes() {
    let mut encoder = encoder();
    let offset = add(&mut encoder, b"a", b"12345");
    assert_eq!(offset.raw(), 56);
    // FILENAME, ENTRY, PAYLOAD
    let offset = add(&mut encoder, b"b", b"");
    assert_eq!(offset.raw(), 56 + 18 + 56 + 21);
    let file = encoder.create_file(&file(), b"c", 0).unwrap();
    assert_eq!(file.file_offset().raw(), 151 + 18 + 56 + 16);
}

#[test]
fn hard_links_count_back_to_their_target() {
    let mut encoder = encoder();
    let target = add(&mut encoder, b"target", b"x");
    encoder.create_directory(b"dir", &dir()).unwrap();
    encoder.add_hardlink(b"link", b"/target", target).unwrap();
    encoder.finish().unwrap();
    let bytes = archive(encoder);
    let mut decoder = Decoder::from_std(&bytes).unwrap();
    for _ in 0..3 {
        decoder.next().unwrap().unwrap();
    }
    let link = decoder.next().unwrap().unwrap();
    assert_eq!(link.get_hardlink(), Some(&b"/target"[..]));
    match link.kind() {
        // the name of the link stands after the file and the start of the directory
        EntryKind::Hardlink(link) => assert_eq!(link.offset, (23 + 56 + 17) + (20 + 56)),
        other => panic!("not a hard link: {:?}", other),
    }
}

#[test]
fn hard_links_point_backwards_only() {
    let mut encoder = encoder();
    assert!(matches!(
        encoder.add_hardlink(b"link", b"target", LinkOffset(56)),
        Err(Error::InvalidHardlinkOffset)
    ));
    assert!(encoder
        .add_hardlink(b"link", b"target", LinkOffset(55))
        .is_ok());
}

#[test]
fn contents_are_written_piece_by_piece() {
    let mut encoder = encoder();
    let mut out = encoder.create_file(&file(), b"file", 6).unwrap();
    assert_eq!(out.write(b"12").unwrap(), 2);
    out.write_all(b"3456").unwrap();
    assert!(matches!(out.write(b"7"), Err(Error::FileOverrun)));
    assert!(matches!(out.write_all(b"7"), Err(Error::FileOverrun)));
    let bytes = archive(encoder);
    let mut decoder = Decoder::from_std(&bytes).unwrap();
    decoder.next().unwrap().unwrap();
    decoder.next().unwrap().unwrap();
    let mut contents = Vec::new();
    decoder
        .contents()
        .unwrap()
        .read_to_end(&mut contents)
        .unwrap();
    assert_eq!(contents, b"123456");
}

#[test]
fn incomplete_files_are_not_forgotten() {
    let mut encoder = encoder();
    encoder.create_directory(b"dir", &dir()).unwrap();
    encoder
        .create_file(&file(), b"file", 6)
        .unwrap()
        .write_all(b"123")
        .unwrap();
    assert!(matches!(
        encoder.create_file(&file(), b"next", 0),
        Err(Error::IncompleteFile)
    ));
    assert!(matches!(
        encoder.create_directory(b"next", &dir()),
        Err(Error::IncompleteFile)
    ));
    // the directory itself can be left, but the error stays
    encoder.finish().unwrap();
    assert!(matches!(
        encoder.add_symlink(&file(), b"next", b"target"),
        Err(Error::IncompleteFile)
    ));
    assert!(matches!(encoder.finish(), Err(Error::IncompleteFile)));
}

#[test]
fn too_little_or_too_much_is_noticed() {
    let mut encoder = self::encoder();
    encoder
        .add_file(&file(), b"file", 9, &mut StandardReader::new(&b"short"[..]))
        .unwrap();
    assert!(matches!(encoder.finish(), Err(Error::IncompleteFile)));

    let mut encoder = self::encoder();
    assert!(matches!(
        encoder.add_file(&file(), b"file", 2, &mut StandardReader::new(&b"long"[..])),
        Err(Error::FileOverrun)
    ));
}

#[test]
fn metadata_have_to_fit() {
    assert!(matches!(
        Encoder::from_std(Vec::new(), &file()),
        Err(Error::NotADirectory)
    ));
    let mut encoder = encoder();
    assert!(matches!(
        encoder.create_directory(b"dir", &file()),
        Err(Error::NotADirectory)
    ));
    let device = Device { major: 1, minor: 2 };
    assert!(matches!(
        encoder.add_device(&file(), b"device", device),
        Err(Error::NotADevice)
    ));
    assert!(matches!(
        encoder.add_fifo(&file(), b"fifo"),
        Err(Error::NotAFifo)
    ));
    assert!(matches!(
        encoder.add_socket(&file(), b"socket"),
        Err(Error::NotASocket)
    ));
    assert!(matches!(
        encoder.add_symlink(&file(), b"a/b", b""),
        Err(Error::NameContainsSlash)
    ));
    assert!(matches!(
        encoder.add_symlink(&file(), b"link", &[b'a'; 4097]),
        Err(Error::ContentTooLarge {
            htype: pxar::format::PXAR_SYMLINK,
            size: 4098,
            max: 4097
        })
    ));
    assert!(matches!(
        encoder.create_file(&file(), b"huge", u64::MAX - 100),
        Err(Error::OutOfRange)
    ));
}

#[test]
fn directories_have_to_be_finished() {
    let mut encoder = encoder();
    encoder.create_directory(b"dir", &dir()).unwrap();
    encoder.finish().unwrap();
    assert!(matches!(
        encoder.close(),
        Err(Error::UnfinishedDirectories)
    ));

    let mut encoder = self::encoder();
    encoder.finish().unwrap();
    assert!(matches!(encoder.finish(), Err(Error::StateUnderflow)));
    assert!(matches!(
        encoder.add_fifo(&Metadata::builder(mode::IFIFO).build(), b"fifo"),
        Err(Error::StateUnderflow)
    ));
    assert!(matches!(
        encoder.payload_position(),
        Err(Error::StateUnderflow)
    ));
}

fn split(prelude: Option<&[u8]>) -> VecEncoder {
    Encoder::new(
        PxarVariant::Split(
            StandardWriter::new(Vec::new()),
            StandardWriter::new(Vec::new()),
        ),
        &dir(),
        prelude,
    )
    .unwrap()
}

#[test]
fn payloads_go_to_their_own_stream() {
    let mut encoder = split(Some(b"prelude"));
    assert_eq!(encoder.payload_position().unwrap(), PayloadOffset(16));
    add(&mut encoder, b"file", b"data");
    assert_eq!(encoder.payload_position().unwrap(), PayloadOffset(36));
    encoder.finish().unwrap();
    let output = encoder.close().unwrap();
    let bytes = &output.archive().inner;
    let payload = &output.payload().unwrap().inner;

    let header = |bytes: &[u8], at: usize| Header::from_bytes(&bytes[at..at + 16]);
    assert_eq!(
        header(payload, 0),
        Header::with_content_size(pxar::format::PXAR_PAYLOAD_START_MARKER, 0)
    );
    assert_eq!(
        header(payload, 16),
        Header::with_content_size(pxar::format::PXAR_PAYLOAD, 4)
    );
    assert_eq!(&payload[32..36], b"data");
    assert_eq!(
        header(payload, 36),
        Header::with_content_size(pxar::format::PXAR_PAYLOAD_TAIL_MARKER, 0)
    );
    assert_eq!(payload.len(), 52);

    assert_eq!(
        header(bytes, 0),
        Header::with_content_size(pxar::format::PXAR_FORMAT_VERSION, 8)
    );
    assert_eq!(bytes[16..24], [2, 0, 0, 0, 0, 0, 0, 0]);
    assert_eq!(
        header(bytes, 24),
        Header::with_content_size(pxar::format::PXAR_PRELUDE, 7)
    );
    assert_eq!(&bytes[40..47], b"prelude");
    assert_eq!(header(bytes, 47).htype, pxar::format::PXAR_ENTRY);
    let reference = 47 + 56 + 21 + 56;
    assert_eq!(
        header(bytes, reference),
        Header::with_content_size(pxar::format::PXAR_PAYLOAD_REF, 16)
    );
    assert_eq!(
        bytes[reference + 16..reference + 32],
        [16, 0, 0, 0, 0, 0, 0, 0, 4, 0, 0, 0, 0, 0, 0, 0]
    );
}

#[test]
fn payloads_can_be_referred_to() {
    let mut encoder = split(None);
    let position = encoder.payload_position().unwrap();
    assert!(matches!(
        encoder.add_payload_ref(&file(), b"old", 1, PayloadOffset(15)),
        Err(Error::PayloadOffsetTooSmall {
            offset: 15,
            position: 16
        })
    ));
    let offset = encoder
        .add_payload_ref(&file(), b"file", 100, position.add(4))
        .unwrap();
    assert_eq!(offset.raw(), 24 + 56);
    encoder.advance(PayloadOffset(120)).unwrap();
    assert_eq!(encoder.payload_position().unwrap().raw(), 136);
    assert!(matches!(
        encoder.advance(PayloadOffset(u64::MAX)),
        Err(Error::OutOfRange)
    ));

    let mut encoder = self::encoder();
    assert!(matches!(
        encoder.add_payload_ref(&file(), b"file", 1, PayloadOffset::default()),
        Err(Error::PayloadRefUnsupported)
    ));
}

#[test]
fn preludes_need_a_payload_stream() {
    let output = PxarVariant::Unified(StandardWriter::new(Vec::new()));
    assert!(matches!(
        Encoder::new(output, &dir(), Some(b"prelude")),
        Err(Error::PreludeUnsupported)
    ));
}

/// Writes one byte at a time, up to a limit.
struct Slow {
    data: Vec<u8>,
    limit: usize,
}

impl SeqWrite for Slow {
    fn seq_write(&mut self, buf: &[u8]) -> Result<usize, std::io::Error> {
        if self.data.len() == self.limit {
            return Err(std::io::Error::from(std::io::ErrorKind::StorageFull));
        }
        match buf.first() {
            Some(byte) => {
                self.data.push(*byte);
                Ok(1)
            }
            None => Ok(0),
        }
    }

    fn flush(&mut self) -> Result<(), std::io::Error> {
        Ok(())
    }
}

#[test]
fn short_writes_and_failures() {
    let slow = |limit| {
        let mut encoder = Encoder::new(
            PxarVariant::Unified(Slow {
                data: Vec::new(),
                limit,
            }),
            &dir(),
            None,
        )?;
        encoder.add_file(&file(), b"file", 4, &mut StandardReader::new(&b"data"[..]))?;
        encoder.finish()?;
        Ok(encoder.close()?.archive().data.clone())
    };
    let mut fast = encoder();
    add(&mut fast, b"file", b"data");
    let expected = archive(fast);
    let result: Result<Vec<u8>, Error> = slow(usize::MAX);
    assert_eq!(result.unwrap(), expected);
    for limit in 0..expected.len() {
        assert!(matches!(slow(limit), Err(Error::Io(_))));
    }
}

#[test]
fn errors_of_a_directory_are_reported() {
    let mut unfinished = encoder();
    let last = unfinished.inner.state.len() - 1;
    unfinished.inner.state[last].encode_error = Some(EncodeError::IncompleteDirectory);
    assert!(matches!(
        unfinished.create_directory(b"dir", &dir()),
        Err(Error::IncompleteDirectory)
    ));
    assert!(matches!(
        unfinished.finish(),
        Err(Error::IncompleteDirectory)
    ));

    let mut finished = encoder();
    finished.inner.finished = true;
    assert!(matches!(
        finished.add_symlink(&file(), b"name", b"target"),
        Err(Error::EncoderFinished)
    ));

    let mut unified = encoder();
    unified.inner.version = FormatVersion::Version2;
    assert!(matches!(
        unified.add_payload_ref(&file(), b"name", 1, PayloadOffset(0)),
        Err(Error::NoPayloadOutput)
    ));
}

#[test]
fn goodbye_tables_stand_at_the_end_of_directories() {
    let mut encoder = encoder();
    encoder.create_directory(b"dir", &dir()).unwrap();
    add(&mut encoder, b"file", b"contents");
    encoder.finish().unwrap();
    let bytes = archive(encoder);
    let mut decoder = Decoder::from_std(&bytes).unwrap();
    decoder.enable_goodbye_entries(true);
    let mut reported = Vec::new();
    while let Some(entry) = decoder.next() {
        let entry = entry.unwrap();
        let is_table = matches!(entry.kind(), EntryKind::GoodbyeTable);
        reported.push((entry.path().to_vec(), is_table));
    }
    assert_eq!(
        reported,
        [
            (b"/".to_vec(), false),
            (b"/dir".to_vec(), false),
            (b"/dir/file".to_vec(), false),
            (b"".to_vec(), true),
            (b"".to_vec(), true),
        ]
    );
}

#[test]
fn refused_additions_write_nothing() {
    let mut encoder = split(None);
    add(&mut encoder, b"file", b"data");
    let before = (
        encoder.inner.output.archive().inner.clone(),
        encoder.inner.output.payload().unwrap().inner.clone(),
    );
    let unwritten = |encoder: &VecEncoder| {
        let output = &encoder.inner.output;
        output.archive().inner == before.0 && output.payload().unwrap().inner == before.1
    };
    let long = vec![b'x'; 5000];
    assert!(encoder
        .add_payload_ref(&file(), b"old", 1, PayloadOffset(0))
        .is_err());
    assert!(unwritten(&encoder));
    assert!(encoder
        .add_hardlink(b"link", b"file", LinkOffset(9999))
        .is_err());
    assert!(unwritten(&encoder));
    assert!(encoder.create_directory(b"dir", &file()).is_err());
    assert!(encoder.create_directory(&long, &dir()).is_err());
    assert!(encoder.create_file(&file(), &long, 1).is_err());
    assert!(encoder.add_symlink(&file(), &long, b"target").is_err());
    assert!(unwritten(&encoder));
    assert!(encoder
        .add_device(&file(), b"device", Device { major: 1, minor: 2 })
        .is_err());
    assert!(encoder.add_fifo(&file(), b"fifo").is_err());
    assert!(encoder.add_socket(&file(), b"socket").is_err());
    assert!(unwritten(&encoder));

    // what was refused leaves no trace
    assert_eq!(encoder.inner.state.len(), 1);
    assert_eq!(encoder.inner.state[0].items.len(), 1);
    encoder.finish().unwrap();
    encoder.close().unwrap();
}

#[test]
fn additions_after_an_incomplete_file_write_nothing() {
    let mut encoder = encoder();
    encoder
        .create_file(&file(), b"file", 4)
        .unwrap()
        .write_all(b"12")
        .unwrap();
    let before = encoder.inner.output.archive().inner.clone();
    assert!(encoder.add_symlink(&file(), b"link", b"target").is_err());
    assert!(encoder.add_hardlink(b"link", b"x", LinkOffset(0)).is_err());
    assert!(encoder.create_directory(b"dir", &dir()).is_err());
    assert!(encoder.create_file(&file(), b"next", 0).is_err());
    assert_eq!(encoder.inner.output.archive().inner, before);
}

#[test]
fn a_directory_is_left_though_its_table_cannot_be_written() {
    // the root directory, and the name and the entry of a directory in it
    let limit = 56 + (16 + 4) + 56;
    for more in [0, 1, 16, 30] {
        let mut encoder = Encoder::new(
            PxarVariant::Unified(Slow {
                data: Vec::new(),
                limit: limit + more,
            }),
            &dir(),
            None,
        )
        .unwrap();
        encoder.create_directory(b"dir", &dir()).unwrap();
        assert_eq!(encoder.inner.state.len(), 2);
        assert!(matches!(encoder.finish(), Err(Error::Io(_))));
        assert_eq!(encoder.inner.state.len(), 1);
        assert!(matches!(encoder.finish(), Err(Error::Io(_))));
        assert!(matches!(encoder.finish(), Err(Error::StateUnderflow)));
    }
}

#[test]
fn failed_writes_do_not_count_as_contents() {
    let start = 56 + (16 + 5) + 56 + 16;
    let mut encoder = Encoder::new(
        PxarVariant::Unified(Slow {
            data: Vec::new(),
            limit: start + 2,
        }),
        &dir(),
        None,
    )
    .unwrap();
    let mut out = encoder.create_file(&file(), b"file", 4).unwrap();
    assert!(matches!(out.write_all(b"data"), Err(Error::Io(_))));
    assert_eq!(encoder.inner.open.as_ref().unwrap().remaining_size, 4);
    assert_eq!(encoder.inner.output.archive().data.len(), start + 2);
}

#[test]
fn too_much_leaves_the_file_open() {
    let mut encoder = encoder();
    assert!(encoder
        .add_file(&file(), b"file", 2, &mut StandardReader::new(&b"long"[..]))
        .is_err());
    assert_eq!(encoder.inner.open.as_ref().unwrap().remaining_size, 2);
    assert!(matches!(encoder.finish(), Err(Error::IncompleteFile)));
}

#[test]
fn large_files_have_to_fit_where_they_go() {
    let huge = u64::MAX - 300;
    let mut encoder = split(None);
    for name in [b"a", b"b", b"c", b"d"] {
        add(&mut encoder, name, b"");
    }
    assert!(encoder.create_file(&file(), b"huge", huge).is_ok());

    let mut encoder = self::encoder();
    for name in [b"a", b"b", b"c", b"d"] {
        add(&mut encoder, name, b"");
    }
    assert!(matches!(
        encoder.create_file(&file(), b"huge", huge),
        Err(Error::OutOfRange)
    ));
}

/// Knows how much of the data has been flushed.
struct Flushed {
    data: Vec<u8>,
    flushed: usize,
}

impl SeqWrite for Flushed {
    fn seq_write(&mut self, buf: &[u8]) -> Result<usize, std::io::Error> {
        self.data.extend_from_slice(buf);
        Ok(buf.len())
    }

    fn flush(&mut self) -> Result<(), std::io::Error> {
        self.flushed = self.data.len();
        Ok(())
    }
}

#[test]
fn everything_is_flushed_at_the_end() {
    let output = || Flushed {
        data: Vec::new(),
        flushed: 0,
    };
    let mut encoder =
        Encoder::new(PxarVariant::Split(output(), output()), &dir(), None).unwrap();
    encoder
        .add_file(&file(), b"file", 4, &mut StandardReader::new(&b"data"[..]))
        .unwrap();
    encoder.finish().unwrap();
    let output = encoder.close().unwrap();
    assert!(output.archive().flushed > 0);
    assert_eq!(output.archive().flushed, output.archive().data.len());
    let payload = output.payload().unwrap();
    assert_eq!(payload.flushed, 16 + 20 + 16);
    assert_eq!(payload.flushed, payload.data.len());
}

#[test]
fn what_stands_in_front_of_a_refused_item_is_written() {
    // the name and the entry
    let start = (16 + 5) + 56;
    let mut encoder = encoder();
    let before = encoder.inner.output.archive().inner.len();
    assert!(encoder
        .add_symlink(&file(), b"link", &vec![b'x'; 5000])
        .is_err());
    assert_eq!(encoder.inner.output.archive().inner.len(), before + start);
    assert_eq!(encoder.inner.state[0].items.len(), 0);
    assert_eq!(
        encoder.inner.state[0].write_position,
        (before + start) as u64
    );

    // hard links have no entry of their own
    assert!(encoder
        .add_hardlink(b"link", &vec![b'x'; 5000], LinkOffset(0))
        .is_err());
    let before = before + start + (16 + 5);
    assert_eq!(encoder.inner.output.archive().inner.len(), before);

    // one attribute is in order, the next one is not
    let mut metadata = dir();
    metadata.xattrs.push(XAttr::new(b"user.a", b"1"));
    metadata
        .xattrs
        .push(XAttr::new(b"user.b", &vec![b'x'; 70000]));
    assert!(encoder.create_directory(b"dirs", &metadata).is_err());
    assert_eq!(
        encoder.inner.output.archive().inner.len(),
        before + start + 16 + 8
    );
    assert_eq!(encoder.inner.state.len(), 1);
}

#[test]
fn archives_with_a_payload_stream_are_refused_at_their_version() {
    let mut encoder = split(None);
    add(&mut encoder, b"file", b"data");
    encoder.finish().unwrap();
    let output = encoder.close().unwrap();
    let mut decoder = Decoder::from_std(&output.archive().inner).unwrap();
    assert!(matches!(
        decoder.next(),
        Some(Err(Error::ExpectedEntry {
            htype: pxar::format::PXAR_FORMAT_VERSION
        }))
    ));
}
