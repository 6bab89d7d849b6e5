use neotron_romfs::Entry;
use neotron_romfs::EntryMetadata;
use neotron_romfs::Error;
use neotron_romfs::FormatVersion;
use neotron_romfs::Header;
use neotron_romfs::RomFs;
use neotron_romfs::Sink;
use neotron_romfs::Time;
use neotron_romfs::VecSink;

#[test]
fn error_variants_on_decode() {
    // Too short for the magic number.
    assert_eq!(RomFs::new(&[0x4e, 0x65]).err().unwrap(), Error::BufferTooSmall);
    // Magic number wrong, rest of the header irrelevant.
    let bad_magic = [
        0xDE, 0xAD, 0xBE, 0xEF, 0xDE, 0xAD, 0xBE, 0xEF, 0x00, 0x01, 0x00, 0x00, 0x00, 0x00, 0x00,
        0x10,
    ];
    assert_eq!(RomFs::new(&bad_magic).err().unwrap(), Error::InvalidMagicHeader);
    // Magic number right but the header cut short.
    let short = [
        0x4e, 0x65, 0x6f, 0x52, 0x4f, 0x4d, 0x46, 0x53, 0x00, 0x01, 0x00, 0x00, 0x00,
    ];
    assert_eq!(RomFs::new(&short).err().unwrap(), Error::BufferTooSmall);
    // Version unknown.
    let bad_version = [
        0x4e, 0x65, 0x6f, 0x52, 0x4f, 0x4d, 0x46, 0x53, 0x00, 0x02, 0x00, 0x00, 0x00, 0x00, 0x00,
        0x10,
    ];
    assert_eq!(RomFs::new(&bad_version).err().unwrap(), Error::UnknownVersion);
    // Declared total differs from the buffer length.
    let wrong_size = [
        0x4e, 0x65, 0x6f, 0x52, 0x4f, 0x4d, 0x46, 0x53, 0x00, 0x01, 0x00, 0x00, 0x00, 0x00, 0x01,
        0x00,
    ];
    assert_eq!(RomFs::new(&wrong_size).err().unwrap(), Error::WrongSize);
}

#[test]
fn header_record_round_trip() {
    let header = Header {
        format_version: FormatVersion::Version100,
        total_size: 0x01020304,
    };
    let mut sink = VecSink::new();
    let n = header.write_into(&mut sink).unwrap();
    assert_eq!(n, 16);
    assert_eq!(
        sink.data,
        vec![
            0x4e, 0x65, 0x6f, 0x52, 0x4f, 0x4d, 0x46, 0x53, 0x00, 0x01, 0x00, 0x00, 0x01, 0x02,
            0x03, 0x04,
        ]
    );
    let (parsed, rest) = Header::from_bytes(&sink.data).unwrap();
    assert_eq!(parsed, header);
    assert!(rest.is_empty());
}

#[test]
fn metadata_record_round_trip() {
    let metadata = EntryMetadata {
        file_name: "HELLO.DOC",
        ctime: Time {
            year_since_1970: 53,
            zero_indexed_month: 10,
            zero_indexed_day: 11,
            hours: 20,
            minutes: 5,
            seconds: 17,
        },
        file_size: 3,
    };
    let bytes = metadata.to_bytes().unwrap();
    assert_eq!(
        bytes,
        vec![
            b'H', b'E', b'L', b'L', b'O', b'.', b'D', b'O', b'C', 0x00, 0x00, 0x00, 0x00, 0x00,
            0x00, 0x00, 0x00, 0x03, 0x35, 0x0A, 0x0B, 0x14, 0x05, 0x11,
        ]
    );
    let (parsed, rest) = EntryMetadata::from_bytes(&bytes).unwrap();
    assert_eq!(parsed.file_name, "HELLO.DOC");
    assert_eq!(parsed.ctime, metadata.ctime);
    assert_eq!(parsed.file_size, 3);
    assert!(rest.is_empty());
}

#[test]
fn metadata_rejects_fifteen_byte_name() {
    let metadata = EntryMetadata {
        file_name: "ABCDEFGHIJK.TXT",
        ctime: Time {
            year_since_1970: 0,
            zero_indexed_month: 0,
            zero_indexed_day: 0,
            hours: 0,
            minutes: 0,
            seconds: 0,
        },
        file_size: 0,
    };
    assert_eq!(metadata.to_bytes().unwrap_err(), Error::FilenameTooLong);
    let mut sink = VecSink::new();
    assert_eq!(
        metadata.write_into(&mut sink).unwrap_err(),
        Error::FilenameTooLong
    );
    assert!(sink.data.is_empty());
}

#[test]
fn metadata_accepts_fourteen_byte_name() {
    let metadata = EntryMetadata {
        file_name: "ABCDEFGHIJ.TXT",
        ctime: Time {
            year_since_1970: 1,
            zero_indexed_month: 2,
            zero_indexed_day: 3,
            hours: 4,
            minutes: 5,
            seconds: 6,
        },
        file_size: 0,
    };
    let bytes = metadata.to_bytes().unwrap();
    assert_eq!(&bytes[0..14], b"ABCDEFGHIJ.TXT");
    let (parsed, _) = EntryMetadata::from_bytes(&bytes).unwrap();
    assert_eq!(parsed.file_name, "ABCDEFGHIJ.TXT");
}

#[test]
fn sink_appends_in_order() {
    let mut sink = VecSink::new();
    sink.accept(&[1, 2]).unwrap();
    sink.accept(&[]).unwrap();
    sink.accept(&[3]).unwrap();
    assert_eq!(sink.data, vec![1, 2, 3]);
}

#[test]
fn truncation_at_contents_start_drops_entry() {
    let first = [9u8, 8, 7];
    let second = [1u8, 2, 3, 4];
    let entries = [
        Entry {
            metadata: EntryMetadata {
                file_name: "KEEP.BIN",
                ctime: Time {
                    year_since_1970: 0,
                    zero_indexed_month: 0,
                    zero_indexed_day: 0,
                    hours: 0,
                    minutes: 0,
                    seconds: 0,
                },
                file_size: first.len() as u32,
            },
            contents: &first,
        },
        Entry {
            metadata: EntryMetadata {
                file_name: "CUT.BIN",
                ctime: Time {
                    year_since_1970: 0,
                    zero_indexed_month: 0,
                    zero_indexed_day: 0,
                    hours: 0,
                    minutes: 0,
                    seconds: 0,
                },
                file_size: second.len() as u32,
            },
            contents: &second,
        },
    ];
    let size = RomFs::size_required(&entries);
    let mut buffer = vec![0u8; size];
    RomFs::construct(&mut buffer, &entries).unwrap();
    // Keep the second entry's whole metadata record but none of its
    // contents, and patch the header's total size to match.
    let cut = size - second.len();
    buffer.truncate(cut);
    let total = (cut as u32).to_be_bytes();
    buffer[12..16].copy_from_slice(&total);
    let romfs = RomFs::new(&buffer).unwrap();
    let mut i = romfs.into_iter();
    let a = i.next().unwrap().unwrap();
    assert_eq!(a.metadata.file_name, "KEEP.BIN");
    assert!(i.next().is_none());
}
