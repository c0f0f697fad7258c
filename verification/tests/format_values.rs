//! The values that stand in an archive.

use std::cmp::Ordering;

use pxar::errors::Error;
use pxar::format::acl;
use pxar::format::mode;
use pxar::format::wire::Wire;
use pxar::format::{
    check_file_name, hash_filename, path_is_legal_component, Device, Duration, Entry, FileType,
    FormatVersion, GoodbyeItem, Hardlink, Header, PayloadRef, QuotaProjectId, StatxTimestamp,
    Stat_V1, Symlink, XAttr,
};
use pxar::util::{is_virtual_file_system, read_os_string, validate_filename};

fn header(htype: u64, full_size: u64) -> Header {
    Header::with_full_size(htype, full_size)
}

#[test]
fn headers_know_their_size() {
    let h = Header::with_content_size(pxar::format::PXAR_PAYLOAD, 5);
    assert_eq!(h.full_size(), 21);
    assert_eq!(h.content_size(), 5);
    assert_eq!(
        h.to_bytes(),
        [
            0x25, 0x1a, 0x7c, 0x0b, 0x1b, 0x7a, 0x14, 0x28, 21, 0, 0, 0, 0, 0, 0, 0
        ]
    );
    assert_eq!(Header::from_bytes(&h.to_bytes()), h);
}

#[test]
fn headers_have_limits() {
    let limit = |htype| header(htype, 16).max_content_size();
    assert_eq!(limit(pxar::format::PXAR_FILENAME), 4097);
    assert_eq!(limit(pxar::format::PXAR_SYMLINK), 4097);
    assert_eq!(limit(pxar::format::PXAR_HARDLINK), 4105);
    assert_eq!(limit(pxar::format::PXAR_XATTR), 65791);
    assert_eq!(limit(pxar::format::PXAR_FCAPS), 65791);
    assert_eq!(limit(pxar::format::PXAR_DEVICE), 16);
    assert_eq!(limit(pxar::format::PXAR_ACL_USER), 16);
    assert_eq!(limit(pxar::format::PXAR_ACL_DEFAULT_GROUP), 16);
    assert_eq!(limit(pxar::format::PXAR_ACL_GROUP_OBJ), 8);
    assert_eq!(limit(pxar::format::PXAR_ACL_DEFAULT), 32);
    assert_eq!(limit(pxar::format::PXAR_QUOTA_PROJID), 8);
    assert_eq!(limit(pxar::format::PXAR_ENTRY), 40);
    assert_eq!(limit(pxar::format::PXAR_ENTRY_V1), 32);
    assert_eq!(limit(pxar::format::PXAR_GOODBYE), u64::MAX - 16);
    assert_eq!(limit(0), u64::MAX - 16);

    let h = header(pxar::format::PXAR_FILENAME, 16 + 4097);
    assert!(h.check_header_size().is_ok());
    let h = header(pxar::format::PXAR_FILENAME, 16 + 4098);
    assert!(matches!(
        h.check_header_size(),
        Err(Error::ContentTooLarge {
            htype: pxar::format::PXAR_FILENAME,
            size: 4098,
            max: 4097
        })
    ));
    let h = header(pxar::format::PXAR_PAYLOAD, 15);
    assert!(matches!(
        h.check_header_size(),
        Err(Error::HeaderTooSmall {
            htype: pxar::format::PXAR_PAYLOAD,
            full_size: 15
        })
    ));
}

#[test]
fn headers_have_readable_types() {
    assert_eq!(header(pxar::format::PXAR_FILENAME, 16).readable(), "FILENAME");
    assert_eq!(header(pxar::format::PXAR_GOODBYE, 16).readable(), "GOODBYE");
    assert_eq!(header(pxar::format::PXAR_ENTRY_V1, 16).readable(), "ENTRY");
    assert_eq!(header(1, 16).readable(), "UNKNOWN");
    assert_eq!(
        header(pxar::format::PXAR_FILENAME, 16).text(),
        "FILENAME header (16701121063917b3)"
    );
    assert_eq!(header(0, 16).text(), "UNKNOWN header (0)");
    assert_eq!(header(0xabcdef, 16).text(), "UNKNOWN header (abcdef)");
}

#[test]
fn names_are_hashed() {
    assert_eq!(hash_filename(b"file.txt"), 0x967764f630c3da14);
    assert_eq!(hash_filename(b""), 0x76614015f8d1bb6c);
    assert_eq!(hash_filename(b"a"), 0x0c26e9067c2c7bcf);
    let item = GoodbyeItem::new(b"fifo0", 17, 4);
    assert_eq!(
        item,
        GoodbyeItem {
            hash: 0xe5e793cac739ed42,
            offset: 17,
            size: 4
        }
    );
}

#[test]
fn values_come_back_from_bytes() {
    let item = GoodbyeItem {
        hash: 1,
        offset: u64::MAX,
        size: 3,
    };
    assert_eq!(item.to_bytes().len(), 24);
    assert_eq!(GoodbyeItem::from_bytes(&item.to_bytes()), item);

    let device = Device {
        major: 0x1122334455667788,
        minor: 2,
    };
    assert_eq!(Device::from_bytes(&device.to_bytes()), device);

    let payload = PayloadRef { offset: 7, size: 9 };
    assert_eq!(
        payload.data(),
        [7, 0, 0, 0, 0, 0, 0, 0, 9, 0, 0, 0, 0, 0, 0, 0]
    );
    assert_eq!(PayloadRef::from_bytes(&payload.data()), payload);

    let quota = QuotaProjectId { projid: 99 };
    assert_eq!(QuotaProjectId::from_bytes(&quota.to_bytes()), quota);

    let user = acl::User::new(1000, acl::READ | acl::WRITE);
    assert_eq!(acl::User::from_bytes(&user.to_bytes()), user);

    let default = acl::Default {
        user_obj_permissions: acl::Permissions(7),
        group_obj_permissions: acl::Permissions(5),
        other_permissions: acl::Permissions(1),
        mask_permissions: acl::Permissions::no_mask(),
    };
    assert_eq!(acl::Default::from_bytes(&default.to_bytes()), default);
    assert_eq!(default.to_bytes()[24..], [0xff; 8]);

    let stat = Entry::default()
        .mode(0o100644)
        .flags(3)
        .uid(4)
        .gid(5)
        .mtime(StatxTimestamp {
            secs: -2,
            nanos: 999_999_999,
        });
    assert_eq!(stat.to_bytes().len(), 40);
    assert_eq!(Entry::from_bytes(&stat.to_bytes()), stat);
}

#[test]
fn format_versions_are_written() {
    assert_eq!(FormatVersion::Version1.serialize(), None);
    assert_eq!(
        FormatVersion::Version2.serialize(),
        Some(vec![2, 0, 0, 0, 0, 0, 0, 0])
    );
}

#[test]
fn types_and_modes_are_told_apart() {
    let stat = Entry::default().mode(0o644);
    assert!(stat.set_dir().is_dir());
    assert!(stat.set_regular_file().is_regular_file());
    assert!(stat.set_symlink().is_symlink());
    assert!(stat.set_blockdev().is_blockdev());
    assert!(stat.set_blockdev().is_device());
    assert!(stat.set_chardev().is_chardev());
    assert!(stat.set_chardev().is_device());
    assert!(stat.set_fifo().is_fifo());
    assert!(Entry::default().mode(mode::IFSOCK).is_socket());
    assert_eq!(stat.set_fifo().set_dir().mode, mode::IFDIR | 0o644);
    assert_eq!(stat.set_dir().get_file_bits(), mode::IFDIR);
    assert_eq!(stat.set_dir().file_type(), mode::IFDIR);
    assert_eq!(stat.set_dir().get_permission_bits(), 0o644);
    assert_eq!(stat.set_dir().file_mode(), 0o644);
    assert!(!stat.set_dir().is_regular_file());
}

#[test]
fn old_stat_data_are_upgraded() {
    let stat: Entry = Stat_V1 {
        mode: 1,
        flags: 2,
        uid: 3,
        gid: 4,
        mtime: 5_000_000_006,
    }
    .into();
    assert_eq!(
        stat,
        Entry {
            mode: 1,
            flags: 2,
            uid: 3,
            gid: 4,
            mtime: StatxTimestamp { secs: 5, nanos: 6 },
        }
    );
}

#[test]
fn file_system_data_become_stat_data() {
    let time = Duration { secs: 7, nanos: 8 };
    let stat = Entry::from_file(0o755, 1, 2, Some(Ok(time)), FileType::Directory);
    assert_eq!(
        stat,
        Entry {
            mode: mode::IFDIR | 0o755,
            flags: 0,
            uid: 1,
            gid: 2,
            mtime: StatxTimestamp { secs: 7, nanos: 8 },
        }
    );
    let stat = Entry::from_file(0o777, 1, 2, Some(Err(time)), FileType::Symlink);
    assert_eq!(stat.mode, mode::IFLNK | 0o777);
    assert_eq!(stat.mtime, StatxTimestamp::zero());
    let stat = Entry::from_file(0o600, 1, 2, None, FileType::Other);
    assert_eq!(stat.mode, mode::IFREG | 0o600);
    assert_eq!(stat.mtime, StatxTimestamp::zero());
}

#[test]
fn times_before_the_epoch() {
    let half = Duration {
        secs: 1,
        nanos: 500_000_000,
    };
    let time = StatxTimestamp::from_duration_before_epoch(half);
    assert_eq!(
        time,
        StatxTimestamp {
            secs: -2,
            nanos: 500_000_000
        }
    );
    assert_eq!(time.to_duration(), Err(half));
    assert_eq!(StatxTimestamp::from_signed_duration(Err(half)), time);

    let time = StatxTimestamp::from_duration_since_epoch(half);
    assert_eq!(
        time,
        StatxTimestamp {
            secs: 1,
            nanos: 500_000_000
        }
    );
    assert_eq!(time.to_duration(), Ok(half));

    let whole = Duration { secs: 3, nanos: 0 };
    assert_eq!(
        StatxTimestamp::from_duration_before_epoch(whole),
        StatxTimestamp { secs: -3, nanos: 0 }
    );
    assert_eq!(
        StatxTimestamp::zero().to_duration(),
        Ok(Duration { secs: 0, nanos: 0 })
    );
}

#[test]
fn extended_attributes_have_a_name_and_a_value() {
    let attr = XAttr::new(b"user.a", b"value");
    assert_eq!(attr.name(), b"user.a");
    assert_eq!(attr.value(), b"value");
    assert_eq!(attr.data(), b"user.a\0value");

    let attr = XAttr::from_data(b"name\0with\0zeros".to_vec()).unwrap();
    assert_eq!(attr.name(), b"name");
    assert_eq!(attr.value(), b"with\0zeros");
    assert!(XAttr::from_data(b"name only".to_vec()).is_none());
}

#[test]
fn extended_attributes_are_ordered_by_name() {
    let a = XAttr::new(b"a", b"2");
    let b = XAttr::new(b"ab", b"1");
    assert!(a == XAttr::new(b"a", b"other"));
    assert!(a < b);
    assert!(b > a);
    assert_eq!(
        a.partial_cmp(&XAttr::new(b"a", b"")),
        Some(Ordering::Equal)
    );
}

#[test]
fn acl_entries_are_ordered_by_id_and_permissions() {
    let a = acl::User::new(1, 7);
    let b = acl::User::new(2, 1);
    let c = acl::User::new(2, 3);
    assert!(a < b && b < c && a < c);
    assert_eq!(b.cmp(&b), Ordering::Equal);
    assert_eq!(b.partial_cmp(&c), Some(Ordering::Less));
    assert_eq!(c.cmp(&b), Ordering::Greater);

    let a = acl::Group::new(1, 7);
    let b = acl::Group::new(2, 1);
    assert!(a < b);
    assert_eq!(b.cmp(&a), Ordering::Greater);
    assert_eq!(b.partial_cmp(&b), Some(Ordering::Equal));
}

#[test]
fn links_end_with_a_zero() {
    let link = Symlink {
        data: b"target\0".to_vec(),
    };
    assert_eq!(link.as_os_str(), b"target");
    assert_eq!(link.as_ref(), b"target\0");
    let link = Hardlink {
        offset: 3,
        data: Vec::new(),
    };
    assert_eq!(link.as_os_str(), b"");
    assert_eq!(read_os_string(b"name\0"), b"name");
    assert_eq!(read_os_string(b"name"), b"name");
}

#[test]
fn file_names_are_checked() {
    assert!(validate_filename(b"name").is_ok());
    assert!(validate_filename(b"...").is_ok());
    assert!(matches!(validate_filename(b""), Err(Error::EmptyName)));
    assert!(matches!(
        validate_filename(b"a/b"),
        Err(Error::NameContainsSlash)
    ));
    assert!(matches!(validate_filename(b"."), Err(Error::NameIsDot)));
    assert!(matches!(validate_filename(b".."), Err(Error::NameIsDotDot)));
    assert!(validate_filename(&[b'a'; 4096]).is_ok());
    assert!(matches!(
        validate_filename(&[b'a'; 4097]),
        Err(Error::NameTooLong)
    ));

    assert!(path_is_legal_component(b"name"));
    assert!(!path_is_legal_component(b""));
    assert!(!path_is_legal_component(b".."));
    assert!(!path_is_legal_component(b"/name"));
    assert!(!path_is_legal_component(b"a/b"));
    assert!(check_file_name(b"name").is_ok());
    assert!(matches!(
        check_file_name(b"a/b"),
        Err(Error::InvalidFileName)
    ));
}

#[test]
fn virtual_file_systems_are_known() {
    assert!(is_virtual_file_system(0x00009fa0));
    assert!(is_virtual_file_system(0x62656572));
    assert!(!is_virtual_file_system(0x0000EF53));
    assert!(!is_virtual_file_system(0x01021994));
    assert!(!is_virtual_file_system(0));
}
