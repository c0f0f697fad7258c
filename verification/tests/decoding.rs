//! What a decoder makes of archives, sound and broken.

use pxar::decoder::sync::{Decoder, StandardReader};
use pxar::decoder::SeqRead;
use pxar::errors::{Error, ItemName};
use pxar::format::acl;
use pxar::format::mode;
use pxar::format::wire::Wire;
use pxar::format::{Device, Entry as Stat, Header, QuotaProjectId};
use pxar::{Entry, EntryKind};

type SliceDecoder<'a> = Decoder<StandardReader<&'a [u8]>>;

fn item(out: &mut Vec<u8>, htype: u64, content: &[u8]) {
    out.extend(Header::with_content_size(htype, content.len() as u64).to_bytes());
    out.extend_from_slice(content);
}

fn stat(out: &mut Vec<u8>, mode: u64) {
    item(
        out,
        pxar::format::PXAR_ENTRY,
        &Stat::default().mode(mode).to_bytes(),
    );
}

fn root() -> Vec<u8> {
    let mut out = Vec::new();
    stat(&mut out, mode::IFDIR | 0o755);
    out
}

/// The first entry of an archive that starts like a file.
fn first(items: &[(u64, &[u8])]) -> Result<Entry, Error> {
    let mut out = Vec::new();
    stat(&mut out, mode::IFREG | 0o644);
    for (htype, content) in items {
        item(&mut out, *htype, content);
    }
    Decoder::from_std(&out).unwrap().next().unwrap()
}

/// The second entry of an archive whose root directory is followed by `rest`.
fn second(rest: &[u8]) -> Option<Result<Entry, Error>> {
    let mut out = root();
    out.extend_from_slice(rest);
    let mut decoder = Decoder::from_std(&out).unwrap();
    assert!(decoder.next().unwrap().unwrap().is_dir());
    decoder.next()
}

fn named(name: &[u8]) -> Vec<u8> {
    let mut out = Vec::new();
    item(&mut out, pxar::format::PXAR_FILENAME, name);
    out
}

#[test]
fn attributes_are_put_together() {
    let group_obj = acl::GroupObject {
        permissions: acl::Permissions(5),
    };
    let default = acl::Default {
        user_obj_permissions: acl::Permissions(7),
        group_obj_permissions: acl::Permissions(6),
        other_permissions: acl::Permissions(5),
        mask_permissions: acl::Permissions::no_mask(),
    };
    let entry = first(&[
        (pxar::format::PXAR_XATTR, b"user.a\x001"),
        (pxar::format::PXAR_XATTR, b"user.b\0\0"),
        (pxar::format::PXAR_ACL_USER, &acl::User::new(1, 2).to_bytes()),
        (
            pxar::format::PXAR_ACL_GROUP,
            &acl::Group::new(3, 4).to_bytes(),
        ),
        (pxar::format::PXAR_ACL_GROUP_OBJ, &group_obj.to_bytes()),
        (pxar::format::PXAR_ACL_DEFAULT, &default.to_bytes()),
        (
            pxar::format::PXAR_ACL_DEFAULT_USER,
            &acl::User::new(5, 6).to_bytes(),
        ),
        (
            pxar::format::PXAR_ACL_DEFAULT_GROUP,
            &acl::Group::new(7, 8).to_bytes(),
        ),
        (pxar::format::PXAR_FCAPS, b"caps"),
        (
            pxar::format::PXAR_QUOTA_PROJID,
            &QuotaProjectId { projid: 9 }.to_bytes(),
        ),
        (pxar::format::PXAR_PAYLOAD, b"contents"),
    ])
    .unwrap();
    let metadata = entry.metadata();
    assert_eq!(metadata.stat, Stat::default().mode(mode::IFREG | 0o644));
    assert_eq!(metadata.xattrs.len(), 2);
    assert_eq!(metadata.xattrs[0].data(), b"user.a\x001");
    assert_eq!(metadata.xattrs[1].value(), b"\0");
    assert_eq!(metadata.acl.users, vec![acl::User::new(1, 2)]);
    assert_eq!(metadata.acl.groups, vec![acl::Group::new(3, 4)]);
    assert_eq!(metadata.acl.group_obj, Some(group_obj));
    assert_eq!(metadata.acl.default, Some(default));
    assert_eq!(metadata.acl.default_users, vec![acl::User::new(5, 6)]);
    assert_eq!(metadata.acl.default_groups, vec![acl::Group::new(7, 8)]);
    assert!(!metadata.acl.is_empty());
    assert_eq!(metadata.fcaps.as_ref().unwrap().data, b"caps");
    assert_eq!(
        metadata.quota_project_id,
        Some(QuotaProjectId { projid: 9 })
    );
    assert_eq!(entry.file_size(), Some(8));
    assert_eq!(entry.path(), b"/");
    assert_eq!(entry.file_name(), b"");
}

#[test]
fn kinds_are_told_by_the_last_item() {
    let entry = first(&[(pxar::format::PXAR_SYMLINK, b"target\0")]).unwrap();
    assert_eq!(entry.get_symlink(), Some(&b"target"[..]));
    assert!(entry.is_symlink());

    let device = Device { major: 3, minor: 4 };
    let entry = first(&[(pxar::format::PXAR_DEVICE, &device.to_bytes())]).unwrap();
    assert_eq!(entry.get_device(), Some(device));
    assert!(entry.is_device());

    let mut out = named(b"pipe\0");
    stat(&mut out, mode::IFIFO);
    out.extend(named(b"next\0"));
    let entry = second(&out).unwrap().unwrap();
    assert!(matches!(entry.kind(), EntryKind::Fifo));
    assert_eq!(entry.path(), b"/pipe");
    assert_eq!(entry.file_name(), b"pipe");
}

#[test]
fn contents_can_be_read_in_parts_or_skipped() {
    let mut out = root();
    for name in [&b"a\0"[..], &b"b\0"[..], &b"c\0"[..]] {
        out.extend(named(name));
        stat(&mut out, mode::IFREG);
        item(&mut out, pxar::format::PXAR_PAYLOAD, b"0123456789");
    }
    item(&mut out, pxar::format::PXAR_GOODBYE, &[0; 24]);
    let mut decoder = Decoder::from_std(&out).unwrap();
    assert!(decoder.next().unwrap().unwrap().is_dir());
    assert!(decoder.contents().is_none());
    assert_eq!(decoder.content_size(), None);

    // a: read in parts
    assert!(decoder.next().unwrap().unwrap().is_regular_file());
    assert_eq!(decoder.content_size(), Some(10));
    let mut buf = [0; 4];
    assert_eq!(decoder.contents().unwrap().read(&mut buf).unwrap(), 4);
    assert_eq!(&buf, b"0123");
    let mut rest = Vec::new();
    let mut contents = decoder.contents().unwrap();
    assert_eq!(contents.read_to_end(&mut rest).unwrap(), 6);
    assert_eq!(contents.read(&mut buf).unwrap(), 0);
    assert_eq!(rest, b"456789");

    // b: left in the middle
    assert_eq!(decoder.next().unwrap().unwrap().file_name(), b"b");
    assert_eq!(decoder.contents().unwrap().read(&mut buf).unwrap(), 4);

    // c: skipped
    assert_eq!(decoder.next().unwrap().unwrap().file_name(), b"c");
    assert!(decoder.next().is_none());
    assert!(decoder.next().is_none());
    assert_eq!(decoder.input().len(), 0);
}

#[test]
fn goodbye_tables_are_reported_on_request() {
    let mut out = root();
    item(&mut out, pxar::format::PXAR_GOODBYE, &[0; 24]);
    let mut decoder = Decoder::from_std(&out).unwrap();
    decoder.enable_goodbye_entries(true);
    assert!(decoder.next().unwrap().unwrap().is_dir());
    let table = decoder.next().unwrap().unwrap();
    assert!(matches!(table.kind(), EntryKind::GoodbyeTable));
    assert_eq!(table.path(), b"");
    assert!(decoder.next().is_none());
}

#[test]
fn broken_attributes_are_refused() {
    let user = acl::User::new(1, 2).to_bytes();
    assert!(matches!(
        first(&[(pxar::format::PXAR_ACL_USER, &user[..15])]),
        Err(Error::BadSize {
            what: ItemName::AclUser,
            size: 15,
            expected: 16
        })
    ));
    assert!(matches!(
        first(&[(pxar::format::PXAR_ACL_GROUP, &user[..8])]),
        Err(Error::BadSize {
            what: ItemName::AclGroup,
            size: 8,
            expected: 16
        })
    ));
    assert!(matches!(
        first(&[(pxar::format::PXAR_DEVICE, &user[..8])]),
        Err(Error::BadSize {
            what: ItemName::Device,
            size: 8,
            expected: 16
        })
    ));
    assert!(matches!(
        first(&[(pxar::format::PXAR_QUOTA_PROJID, b"")]),
        Err(Error::BadSize {
            what: ItemName::QuotaProjectId,
            size: 0,
            expected: 8
        })
    ));
    let eight: (u64, &[u8]) = (pxar::format::PXAR_ACL_GROUP_OBJ, &[1; 8]);
    assert!(matches!(
        first(&[eight, eight]),
        Err(Error::MultipleAclGroupObjects)
    ));
    let default: (u64, &[u8]) = (pxar::format::PXAR_ACL_DEFAULT, &[1; 32]);
    assert!(matches!(
        first(&[default, default]),
        Err(Error::MultipleAclDefaults)
    ));
    let caps: (u64, &[u8]) = (pxar::format::PXAR_FCAPS, b"caps");
    assert!(matches!(first(&[caps, caps]), Err(Error::MultipleFCaps)));
    let quota: (u64, &[u8]) = (pxar::format::PXAR_QUOTA_PROJID, &[1; 8]);
    assert!(matches!(
        first(&[quota, quota]),
        Err(Error::MultipleQuotaProjectIds)
    ));
    assert!(matches!(
        first(&[(pxar::format::PXAR_XATTR, b"no separator")]),
        Err(Error::MissingXAttrSeparator)
    ));
}

#[test]
fn misplaced_items_are_refused() {
    assert!(matches!(
        first(&[(pxar::format::PXAR_HARDLINK, &[1; 10])]),
        Err(Error::UnexpectedHardlink)
    ));
    assert!(matches!(
        first(&[(5, b"")]),
        Err(Error::UnexpectedEntryType { htype: 5 })
    ));
    assert!(matches!(first(&[]), Err(Error::EofInEntry)));
    assert!(matches!(
        first(&[(pxar::format::PXAR_FCAPS, b"caps")]),
        Err(Error::EofInEntry)
    ));

    let mut out = Vec::new();
    item(&mut out, pxar::format::PXAR_SYMLINK, b"target\0");
    assert!(matches!(
        Decoder::from_std(&out).unwrap().next(),
        Some(Err(Error::ExpectedEntry {
            htype: pxar::format::PXAR_SYMLINK
        }))
    ));

    let mut out = named(b"link\0");
    item(&mut out, pxar::format::PXAR_HARDLINK, &[1; 8]);
    assert!(matches!(second(&out), Some(Err(Error::HardlinkTooSmall))));
}

#[test]
fn broken_names_are_refused() {
    let name_error = |name: &[u8]| {
        let mut out = named(name);
        stat(&mut out, mode::IFREG);
        second(&out).unwrap().unwrap_err()
    };
    assert!(matches!(
        name_error(b"unterminated"),
        Error::MissingTerminatingZero
    ));
    assert!(matches!(name_error(b""), Error::MissingTerminatingZero));
    assert!(matches!(name_error(b"\0"), Error::EmptyName));
    assert!(matches!(name_error(b"a/b\0"), Error::NameContainsSlash));
    assert!(matches!(name_error(b".\0"), Error::NameIsDot));
    assert!(matches!(name_error(b"..\0"), Error::NameIsDotDot));
}

#[test]
fn truncated_archives_are_refused() {
    let mut out = root();
    item(&mut out, pxar::format::PXAR_GOODBYE, &[0; 24]);
    for len in 1..56 {
        assert!(matches!(
            Decoder::from_std(&out[..len]).unwrap().next(),
            Some(Err(Error::UnexpectedEof))
        ));
    }
    assert!(matches!(
        Decoder::from_std(&out[..0]).unwrap().next(),
        Some(Err(Error::UnexpectedEof))
    ));
    let mut decoder = Decoder::from_std(&out[..out.len() - 1]).unwrap();
    assert!(decoder.next().unwrap().is_ok());
    assert!(matches!(decoder.next(), Some(Err(Error::UnexpectedEof))));
}

#[test]
fn archives_need_a_root_directory() {
    let mut out = Vec::new();
    stat(&mut out, mode::IFREG);
    item(&mut out, pxar::format::PXAR_PAYLOAD, b"x");
    let mut with_name = out.clone();
    with_name.extend(named(b"name\0"));
    let mut decoder = Decoder::from_std(&with_name).unwrap();
    assert!(decoder.next().unwrap().is_ok());
    assert!(matches!(decoder.next(), Some(Err(Error::PathUnderrun))));

    let mut with_table = out.clone();
    item(&mut with_table, pxar::format::PXAR_GOODBYE, b"");
    let mut decoder = Decoder::from_std(&with_table).unwrap();
    assert!(decoder.next().unwrap().is_ok());
    assert!(matches!(
        decoder.next(),
        Some(Err(Error::EofInGoodbyeTable))
    ));

    let mut with_attribute = out.clone();
    item(&mut with_attribute, pxar::format::PXAR_FCAPS, b"caps");
    let mut decoder: SliceDecoder = Decoder::from_std(&with_attribute).unwrap();
    assert!(decoder.next().unwrap().is_ok());
    assert!(matches!(
        decoder.next(),
        Some(Err(Error::ExpectedFilenameOrGoodbye {
            htype: pxar::format::PXAR_FCAPS
        }))
    ));
}

#[test]
fn nothing_after_a_file_leaves_the_decoder_with_it() {
    let mut out = root();
    out.extend(named(b"a\0"));
    stat(&mut out, mode::IFREG);
    item(&mut out, pxar::format::PXAR_PAYLOAD, b"0123456789");
    let mut decoder = Decoder::from_std(&out).unwrap();
    decoder.next().unwrap().unwrap();
    decoder.next().unwrap().unwrap();
    let mut contents = Vec::new();
    decoder
        .contents()
        .unwrap()
        .read_to_end(&mut contents)
        .unwrap();
    assert_eq!(contents.len(), 10);
    for _ in 0..2 {
        assert!(matches!(
            decoder.next(),
            Some(Err(Error::UnexpectedEof))
        ));
        assert_eq!(decoder.content_size(), Some(10));
    }
}

/// A file whose contents have been reported, and what follows it.
fn behind_a_file(rest: &[u8]) -> Vec<u8> {
    let mut out = root();
    out.extend(named(b"a\0"));
    stat(&mut out, mode::IFREG);
    item(&mut out, pxar::format::PXAR_PAYLOAD, b"0123456789");
    out.extend_from_slice(rest);
    out
}

#[test]
fn a_header_that_is_refused_behind_a_file_takes_its_place() {
    let header = Header::with_content_size(pxar::format::PXAR_FILENAME, 5000).to_bytes();
    let out = behind_a_file(&header);
    let mut decoder = Decoder::from_std(&out).unwrap();
    decoder.next().unwrap().unwrap();
    decoder.next().unwrap().unwrap();
    assert!(matches!(
        decoder.next(),
        Some(Err(Error::ContentTooLarge { size: 5000, .. }))
    ));
    assert_eq!(decoder.content_size(), Some(5000));
    assert_eq!(decoder.input().len(), 0);
    assert!(matches!(decoder.next(), Some(Err(Error::UnexpectedEof))));
}

#[test]
fn an_item_that_is_refused_behind_a_file_takes_its_place() {
    let mut rest = Vec::new();
    item(&mut rest, 0x1234, b"0123456789abc");
    rest.extend(named(b"b\0"));
    stat(&mut rest, mode::IFREG);
    item(&mut rest, pxar::format::PXAR_PAYLOAD, b"");
    let out = behind_a_file(&rest);
    let mut decoder = Decoder::from_std(&out).unwrap();
    decoder.next().unwrap().unwrap();
    decoder.next().unwrap().unwrap();
    assert!(matches!(
        decoder.next(),
        Some(Err(Error::UnexpectedEntryType { htype: 0x1234 }))
    ));
    assert_eq!(decoder.content_size(), Some(13));
    // the content of the item is skipped as the payload was
    assert_eq!(decoder.next().unwrap().unwrap().file_name(), b"b");
}

#[test]
fn part_of_a_header_takes_the_place_of_part_of_the_last_one() {
    let mut part = Header::with_content_size(pxar::format::PXAR_FILENAME, 20).to_bytes();
    part.truncate(9);
    let out = behind_a_file(&part);
    let mut decoder = Decoder::from_std(&out).unwrap();
    decoder.next().unwrap().unwrap();
    decoder.next().unwrap().unwrap();
    assert!(matches!(decoder.next(), Some(Err(Error::UnexpectedEof))));
    // the size went from 26 to 36
    assert_eq!(decoder.content_size(), Some(20));
    assert_eq!(decoder.inner.current_header.htype, pxar::format::PXAR_FILENAME);
}

#[test]
fn contents_make_no_difference_to_where_an_archive_is_refused() {
    let header = Header::with_content_size(pxar::format::PXAR_FILENAME, 5000).to_bytes();
    let mut out = behind_a_file(&header);
    out.extend([1, 2, 3]);
    for n in [0, 4, 10] {
        let mut decoder = Decoder::from_std(&out).unwrap();
        decoder.next().unwrap().unwrap();
        decoder.next().unwrap().unwrap();
        let mut buf = vec![0; n];
        assert_eq!(decoder.contents().unwrap().read(&mut buf).unwrap(), n);
        assert!(decoder.next().unwrap().is_err());
        assert_eq!(decoder.input().len(), 3);
    }
}

#[test]
fn an_entry_that_is_refused_leaves_its_place() {
    // the name has been read, and the header behind it
    let mut out = root();
    out.extend(named(b"a\0"));
    item(&mut out, pxar::format::PXAR_XATTR, b"x");
    let mut decoder = Decoder::from_std(&out).unwrap();
    decoder.next().unwrap().unwrap();
    assert!(matches!(
        decoder.next(),
        Some(Err(Error::ExpectedEntry { .. }))
    ));
    assert_eq!(decoder.input().len(), 1);
    assert_eq!(decoder.inner.entry.path, b"/a");
    assert_eq!(decoder.inner.current_header.htype, pxar::format::PXAR_FILENAME);
}

#[test]
fn what_is_given_twice_is_not_read() {
    let group_obj = acl::GroupObject {
        permissions: acl::Permissions(5),
    };
    let default = acl::Default {
        user_obj_permissions: acl::Permissions(1),
        group_obj_permissions: acl::Permissions(2),
        other_permissions: acl::Permissions(3),
        mask_permissions: acl::Permissions(4),
    };
    let cases: [(u64, Vec<u8>); 4] = [
        (pxar::format::PXAR_ACL_GROUP_OBJ, group_obj.to_bytes()),
        (pxar::format::PXAR_ACL_DEFAULT, default.to_bytes()),
        (pxar::format::PXAR_FCAPS, vec![1, 2, 3]),
        (
            pxar::format::PXAR_QUOTA_PROJID,
            QuotaProjectId { projid: 7 }.to_bytes(),
        ),
    ];
    for (htype, content) in cases {
        let mut out = Vec::new();
        stat(&mut out, mode::IFREG | 0o644);
        item(&mut out, htype, &content);
        item(&mut out, htype, &content);
        let mut decoder = Decoder::from_std(&out).unwrap();
        assert!(decoder.next().unwrap().is_err());
        assert_eq!(decoder.input().len(), content.len());
    }
}

#[test]
fn each_directory_has_a_goodbye_table() {
    let mut out = root();
    for name in [&b"a\0"[..], &b"b\0"[..]] {
        out.extend(named(name));
        stat(&mut out, mode::IFDIR | 0o755);
    }
    for _ in 0..3 {
        item(&mut out, pxar::format::PXAR_GOODBYE, &[0; 24]);
    }
    let mut decoder = Decoder::from_std(&out).unwrap();
    decoder.enable_goodbye_entries(true);
    let (mut directories, mut tables) = (0, 0);
    while let Some(entry) = decoder.next() {
        match entry.unwrap().kind() {
            EntryKind::Directory => directories += 1,
            EntryKind::GoodbyeTable => tables += 1,
            other => panic!("unexpected entry: {:?}", other),
        }
    }
    assert_eq!((directories, tables), (3, 3));
}

/// Fails once all has been read.
struct Failing<'a>(&'a [u8]);

impl SeqRead for Failing<'_> {
    fn seq_read(&mut self, buf: &mut [u8]) -> Result<usize, std::io::Error> {
        if self.0.is_empty() {
            return Err(std::io::Error::from(std::io::ErrorKind::BrokenPipe));
        }
        let n = buf.len().min(self.0.len());
        buf[..n].copy_from_slice(&self.0[..n]);
        self.0 = &self.0[n..];
        Ok(n)
    }

    fn position(&mut self) -> Option<Result<u64, std::io::Error>> {
        None
    }
}

#[test]
fn nothing_is_read_behind_the_end() {
    let mut out = root();
    item(&mut out, pxar::format::PXAR_GOODBYE, &[0; 24]);
    let mut decoder = Decoder::new(Failing(&out)).unwrap();
    assert!(decoder.next().unwrap().unwrap().is_dir());
    assert!(decoder.next().is_none());
    assert!(decoder.next().is_none());
}

#[test]
fn what_was_read_before_a_failure_is_kept() {
    let mut out = root();
    out.extend(named(b"a\0"));
    stat(&mut out, mode::IFREG);
    item(&mut out, pxar::format::PXAR_PAYLOAD, b"0123456789");
    out.truncate(out.len() - 4);
    let mut decoder = Decoder::new(Failing(&out)).unwrap();
    decoder.next().unwrap().unwrap();
    decoder.next().unwrap().unwrap();
    let mut contents = b"before ".to_vec();
    assert!(matches!(
        decoder.contents().unwrap().read_to_end(&mut contents),
        Err(Error::Io(_))
    ));
    assert_eq!(contents, b"before 012345");
}

#[test]
fn goodbye_tables_change_nothing_else() {
    let mut out = root();
    out.extend(named(b"a\0"));
    stat(&mut out, mode::IFDIR | 0o755);
    out.extend(named(b"pipe\0"));
    stat(&mut out, mode::IFIFO);
    item(&mut out, pxar::format::PXAR_GOODBYE, &[0; 24]);
    out.extend(named(b"b\0"));
    stat(&mut out, mode::IFREG);
    item(&mut out, pxar::format::PXAR_PAYLOAD, b"contents");
    item(&mut out, pxar::format::PXAR_GOODBYE, &[0; 24]);
    for len in 0..=out.len() {
        let entries = |tables: bool| {
            let mut decoder = Decoder::from_std(&out[..len]).unwrap();
            decoder.enable_goodbye_entries(tables);
            let mut entries = Vec::new();
            loop {
                match decoder.next() {
                    Some(Ok(entry)) => {
                        if matches!(entry.kind(), EntryKind::GoodbyeTable) {
                            assert!(tables);
                            assert_eq!(entry.path(), b"");
                        } else {
                            entries.push(entry.path().to_vec());
                        }
                    }
                    Some(Err(e)) => return (entries, format!("{:?}", e)),
                    None => return (entries, String::from("end")),
                }
            }
        };
        assert_eq!(entries(true), entries(false));
    }
}
