//! Test for old timestamp format compatibility.

use pxar::decoder;
use pxar::errors::Error;
use pxar::format::wire::Wire;
use pxar::EntryKind;

fn write_raw_struct<T: Wire>(output: &mut Vec<u8>, data: T) {
    output.extend_from_slice(&data.to_bytes());
}

fn write_data(output: &mut Vec<u8>, htype: u64, data: &[u8]) -> Result<(), Error> {
    let header = pxar::format::Header::with_content_size(htype, data.len() as u64);
    header.check_header_size()?;
    write_raw_struct(output, header);
    output.extend_from_slice(data);
    Ok(())
}

fn write_entry<T: Wire>(output: &mut Vec<u8>, htype: u64, data: T) -> Result<(), Error> {
    write_data(output, htype, &data.to_bytes())
}

const MAY_1_2015_1530: u64 = 1430487000u64;

const FILE_NAME: &str = "file.txt";
const FILE_NAME_BYTES: &[u8] = b"file.txt\0";
const FILE_CONTENT: &[u8] = b"This is a small text file.\n";
const ROOT_STAT: pxar::format::Stat_V1 = pxar::format::Stat_V1 {
    mode: pxar::format::mode::IFDIR | 0o755,
    flags: 0,
    uid: 1000,
    gid: 1000,
    mtime: MAY_1_2015_1530 * 1_000_000_000u64,
};
const FILE_STAT: pxar::format::Stat_V1 = pxar::format::Stat_V1 {
    mode: pxar::format::mode::IFREG | 0o644,
    flags: 0,
    uid: 1000,
    gid: 1000,
    mtime: MAY_1_2015_1530 * 1_000_000_000u64,
};

fn create_archive() -> Result<Vec<u8>, Error> {
    let mut out = Vec::new();

    write_entry(&mut out, pxar::format::PXAR_ENTRY_V1, ROOT_STAT)?;

    let file_offset = out.len();
    write_data(&mut out, pxar::format::PXAR_FILENAME, FILE_NAME_BYTES)?;
    write_entry(&mut out, pxar::format::PXAR_ENTRY_V1, FILE_STAT)?;
    write_data(&mut out, pxar::format::PXAR_PAYLOAD, FILE_CONTENT)?;

    let mut gbt = Vec::new();
    write_raw_struct(
        &mut gbt,
        pxar::format::GoodbyeItem::new(
            FILE_NAME.as_bytes(),
            file_offset as u64,
            FILE_CONTENT.len() as u64,
        ),
    );

    let gbt_size = gbt.len();
    write_raw_struct(
        &mut gbt,
        pxar::format::GoodbyeItem {
            hash: pxar::format::PXAR_GOODBYE_TAIL_MARKER,
            offset: out.len() as u64,
            size: gbt_size as u64,
        },
    );

    write_data(&mut out, pxar::format::PXAR_GOODBYE, &gbt)?;

    Ok(out)
}

#[test]
fn test_archive() {
    let archive = create_archive().expect("failed to create test archive");
    let mut decoder =
        decoder::Decoder::from_std(&archive[..]).expect("failed to create decoder");

    let item = decoder
        .next()
        .expect("missing root directory in test archive")
        .expect("failed to extract root directory from test archive");
    match item.kind() {
        EntryKind::Directory => (),
        other => panic!("unexpected root entry in archive: {:?}", other),
    }
    assert_eq!(item.file_name(), b"");
    assert_eq!(item.metadata().stat, ROOT_STAT.into());
    assert_eq!(
        item.metadata().stat.mtime,
        pxar::format::StatxTimestamp {
            secs: MAY_1_2015_1530 as i64,
            nanos: 0,
        },
    );

    let item = decoder
        .next()
        .expect("missing file entry in test archive")
        .expect("failed to extract file entry from test archive");
    match item.kind() {
        EntryKind::File { size, .. } => assert_eq!(*size, FILE_CONTENT.len() as u64),
        other => panic!("unexpected file entry in archive: {:?}", other),
    }
    assert_eq!(item.file_name(), FILE_NAME.as_bytes());
    assert_eq!(item.metadata().stat, FILE_STAT.into());
    let mut content = Vec::new();
    decoder
        .contents()
        .expect("failed to get contents for file entry")
        .read_to_end(&mut content)
        .expect("failed to read test file contents");
    assert_eq!(&content[..], FILE_CONTENT);

    assert!(decoder.next().is_none(), "expected end of test archive");
}
