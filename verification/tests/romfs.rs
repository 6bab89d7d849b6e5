use neotron_romfs::Entry;
use neotron_romfs::EntryMetadata;
use neotron_romfs::Error;
use neotron_romfs::RomFs;
use neotron_romfs::Time;
use neotron_romfs::VecSink;

#[test]
fn decode_empty() {
    let data = [
        // Magic number
        0x4e, 0x65, 0x6f, 0x52, 0x4f, 0x4d, 0x46, 0x53,
        // Version
        0x00, 0x01, 0x00, 0x00,
        // Total size
        0x00, 0x00, 0x00, 0x10,
    ];
    let romfs = RomFs::new(&data).unwrap();
    let mut i = romfs.into_iter();
    assert!(i.next().is_none());
}

#[test]
fn decode_bad_len() {
    let data = [
        // Magic number
        0x4e, 0x65, 0x6f, 0x52, 0x4f, 0x4d, 0x46, 0x53,
        // Version
        0x00, 0x01, 0x00, 0x00,
        // Total size
        0x00, 0x00, 0x00, 0x0F,
    ];
    assert!(RomFs::new(&data).is_err());
}

#[test]
fn decode_bad_magic() {
    let data = [
        // Magic number
        0x4e, 0x65, 0x6f, 0x52, 0x4f, 0x4d, 0x46, 0x54,
        // Version
        0x00, 0x01, 0x00, 0x00,
        // Total size
        0x00, 0x00, 0x00, 0x10,
    ];
    assert!(RomFs::new(&data).is_err());
}

#[test]
fn decode_bad_version() {
    let data = [
        // Magic number
        0x4e, 0x65, 0x6f, 0x52, 0x4f, 0x4d, 0x46, 0x53,
        // Version
        0x00, 0x01, 0x00, 0x01,
        // Total size
        0x00, 0x00, 0x00, 0x10,
    ];
    assert!(RomFs::new(&data).is_err());
}

#[test]
fn decode_one_file() {
    let data = [
        // Magic number
        0x4e, 0x65, 0x6f, 0x52, 0x4f, 0x4d, 0x46, 0x53,
        // Version
        0x00, 0x01, 0x00, 0x00,
        // Total size
        0x00, 0x00, 0x00, 0x2C,
        // File Name
        0x52, 0x45, 0x41, 0x44, 0x4d, 0x45, 0x2e, 0x54, 0x58, 0x54, 0x00, 0x00, 0x00, 0x00,
        // File size
        0x00, 0x00, 0x00, 0x04,
        // Timestamp (2023-11-12T20:05:16)
        0x35, 0x0A, 0x0B, 0x14, 0x05, 0x10,
        // Contents
        0x12, 0x34, 0x56, 0x78,
    ];
    let romfs = RomFs::new(&data).unwrap();
    let mut i = romfs.into_iter();
    let first_item = i.next().unwrap().unwrap();
    assert_eq!(first_item.metadata.file_name, "README.TXT");
    assert_eq!(first_item.contents.len(), 4);
    assert_eq!(first_item.contents, &[0x12, 0x34, 0x56, 0x78]);
    assert_eq!(
        first_item.metadata.ctime,
        Time {
            year_since_1970: 53,
            zero_indexed_month: 10,
            zero_indexed_day: 11,
            hours: 20,
            minutes: 5,
            seconds: 16
        }
    );
    assert!(i.next().is_none());
}

#[test]
fn decode_two_files() {
    let data = [
        // Magic number
        0x4e, 0x65, 0x6f, 0x52, 0x4f, 0x4d, 0x46, 0x53,
        // Version
        0x00, 0x01, 0x00, 0x00,
        // Total size
        0x00, 0x00, 0x00, 0x47,
        // File Name
        b'R', b'E', b'A', b'D', b'M', b'E', b'.', b'T', b'X', b'T', 0x00, 0x00, 0x00, 0x00,
        // File size
        0x00, 0x00, 0x00, 0x04,
        // Timestamp (2023-11-12T20:05:16)
        0x35, 0x0A, 0x0B, 0x14, 0x05, 0x10,
        // Contents
        0x12, 0x34, 0x56, 0x78,
        // File Name
        b'H', b'E', b'L', b'L', b'O', b'.', b'D', b'O', b'C', 0x00, 0x00, 0x00, 0x00, 0x00,
        // File size
        0x00, 0x00, 0x00, 0x03,
        // Timestamp (2023-11-12T20:05:17)
        0x35, 0x0A, 0x0B, 0x14, 0x05, 0x11,
        // Contents
        0xAB, 0xCD, 0xEF,
    ];
    let romfs = RomFs::new(&data).unwrap();
    let mut i = romfs.into_iter();
    let first_item = i.next().unwrap().unwrap();
    assert_eq!(first_item.metadata.file_name, "README.TXT");
    assert_eq!(first_item.contents.len(), 4);
    assert_eq!(first_item.contents, &[0x12, 0x34, 0x56, 0x78]);
    assert_eq!(
        first_item.metadata.ctime,
        Time {
            year_since_1970: 53,
            zero_indexed_month: 10,
            zero_indexed_day: 11,
            hours: 20,
            minutes: 5,
            seconds: 16
        }
    );
    let second_item = i.next().unwrap().unwrap();
    assert_eq!(second_item.metadata.file_name, "HELLO.DOC");
    assert_eq!(second_item.contents.len(), 3);
    assert_eq!(second_item.contents, &[0xAB, 0xCD, 0xEF]);
    assert_eq!(
        second_item.metadata.ctime,
        Time {
            year_since_1970: 53,
            zero_indexed_month: 10,
            zero_indexed_day: 11,
            hours: 20,
            minutes: 5,
            seconds: 17
        }
    );
    assert!(i.next().is_none());
}

fn sample_time(seconds: u8) -> Time {
    Time {
        year_since_1970: 53,
        zero_indexed_month: 10,
        zero_indexed_day: 11,
        hours: 20,
        minutes: 5,
        seconds,
    }
}

fn sample_entry<'a>(name: &'a str, contents: &'a [u8], seconds: u8) -> Entry<'a> {
    Entry {
        metadata: EntryMetadata {
            file_name: name,
            ctime: sample_time(seconds),
            file_size: contents.len() as u32,
        },
        contents,
    }
}

#[test]
fn round_trip_two_entries() {
    let first = [0x12u8, 0x34, 0x56, 0x78];
    let second = [0xABu8, 0xCD, 0xEF];
    let entries = [
        sample_entry("README.TXT", &first, 16),
        sample_entry("HELLO.DOC", &second, 17),
    ];
    let size = RomFs::size_required(&entries);
    assert_eq!(size, 16 + 24 + 4 + 24 + 3);
    let mut buffer = vec![0u8; size];
    let used = RomFs::construct(&mut buffer, &entries).unwrap();
    assert_eq!(used, size);
    let romfs = RomFs::new(&buffer).unwrap();
    let mut i = romfs.into_iter();
    let a = i.next().unwrap().unwrap();
    assert_eq!(a.metadata.file_name, "README.TXT");
    assert_eq!(a.metadata.file_size, 4);
    assert_eq!(a.metadata.ctime, sample_time(16));
    assert_eq!(a.contents, &first[..]);
    let b = i.next().unwrap().unwrap();
    assert_eq!(b.metadata.file_name, "HELLO.DOC");
    assert_eq!(b.metadata.file_size, 3);
    assert_eq!(b.metadata.ctime, sample_time(17));
    assert_eq!(b.contents, &second[..]);
    assert!(i.next().is_none());
}

#[test]
fn round_trip_multibyte_name() {
    let contents = [0x01u8, 0x02];
    let entries = [sample_entry("grüß.txt", &contents, 1)];
    assert_eq!("grüß.txt".len(), 10);
    let size = RomFs::size_required(&entries);
    let mut buffer = vec![0u8; size];
    RomFs::construct(&mut buffer, &entries).unwrap();
    let romfs = RomFs::new(&buffer).unwrap();
    let found = romfs.find("grüß.txt").unwrap();
    assert_eq!(found.metadata.file_name, "grüß.txt");
    assert_eq!(found.contents, &contents[..]);
}

#[test]
fn construct_matches_size_required() {
    let first = [0u8; 10];
    let second = [1u8; 1];
    let entries = [
        sample_entry("A.BIN", &first, 0),
        sample_entry("B.BIN", &second, 1),
    ];
    let size = RomFs::size_required(&entries);
    let mut sink = VecSink::new();
    let written = RomFs::construct_into(&mut sink, &entries).unwrap();
    assert_eq!(written, size);
    assert_eq!(sink.data.len(), size);
    let mut buffer = vec![0u8; size + 7];
    let used = RomFs::construct(&mut buffer, &entries).unwrap();
    assert_eq!(used, size);
    assert_eq!(&buffer[..size], &sink.data[..]);
    assert_eq!(&buffer[size..], &[0u8; 7]);
}

#[test]
fn construct_empty_image() {
    let entries: [Entry; 0] = [];
    let size = RomFs::size_required(&entries);
    assert_eq!(size, 16);
    let mut buffer = vec![0xFFu8; 16];
    let used = RomFs::construct(&mut buffer, &entries).unwrap();
    assert_eq!(used, 16);
    let romfs = RomFs::new(&buffer).unwrap();
    let mut i = romfs.into_iter();
    assert!(i.next().is_none());
}

#[test]
fn construct_buffer_too_small() {
    let contents = [0u8; 4];
    let entries = [sample_entry("A.BIN", &contents, 0)];
    let mut buffer = vec![0u8; 16];
    let r = RomFs::construct(&mut buffer, &entries);
    assert!(matches!(r, Err(Error::BufferTooSmall)));
    assert_eq!(&buffer[..], &[0u8; 16]);
}

#[test]
fn filename_too_long_writes_nothing() {
    let contents = [0u8; 4];
    // 15 ASCII bytes: one more than the name field holds.
    let entries = [sample_entry("ABCDEFGHIJK.TXT", &contents, 0)];
    let mut buffer = vec![0u8; 256];
    let r = RomFs::construct(&mut buffer, &entries);
    assert!(matches!(r, Err(Error::FilenameTooLong)));
    assert_eq!(&buffer[..], &vec![0u8; 256][..]);
    let mut sink = VecSink::new();
    let r2 = RomFs::construct_into(&mut sink, &entries);
    assert!(matches!(r2, Err(Error::FilenameTooLong)));
    assert!(sink.data.is_empty());
}

#[test]
fn truncated_image_drops_last_entry() {
    let first = [0x12u8, 0x34, 0x56, 0x78];
    let second = [0xABu8, 0xCD, 0xEF];
    let entries = [
        sample_entry("README.TXT", &first, 16),
        sample_entry("HELLO.DOC", &second, 17),
    ];
    let size = RomFs::size_required(&entries);
    let mut buffer = vec![0u8; size];
    RomFs::construct(&mut buffer, &entries).unwrap();
    // Cut off the last two bytes of the second entry's contents, and patch
    // the header's total size so it matches the shorter buffer.
    let cut = size - 2;
    buffer.truncate(cut);
    let total = (cut as u32).to_be_bytes();
    buffer[12..16].copy_from_slice(&total);
    let romfs = RomFs::new(&buffer).unwrap();
    let mut i = romfs.into_iter();
    let a = i.next().unwrap().unwrap();
    assert_eq!(a.metadata.file_name, "README.TXT");
    assert_eq!(a.contents, &first[..]);
    assert!(i.next().is_none());
    assert!(i.next().is_none());
}

#[test]
fn non_unicode_filename_ends_iteration() {
    let contents = [0x55u8];
    let entries = [sample_entry("GOOD.TXT", &contents, 0)];
    let size = RomFs::size_required(&entries);
    let mut buffer = vec![0u8; size];
    RomFs::construct(&mut buffer, &entries).unwrap();
    // 0xFF can never start a UTF-8 sequence.
    buffer[16] = 0xFF;
    let romfs = RomFs::new(&buffer).unwrap();
    let mut i = romfs.into_iter();
    let first = i.next().unwrap();
    assert!(matches!(first, Err(Error::NonUnicodeFilename)));
    assert!(i.next().is_none());
}

#[test]
fn find_returns_first_match() {
    let first = [1u8];
    let second = [2u8];
    let third = [3u8];
    let entries = [
        sample_entry("OTHER.TXT", &first, 0),
        sample_entry("DUP.TXT", &second, 1),
        sample_entry("DUP.TXT", &third, 2),
    ];
    let size = RomFs::size_required(&entries);
    let mut buffer = vec![0u8; size];
    RomFs::construct(&mut buffer, &entries).unwrap();
    let romfs = RomFs::new(&buffer).unwrap();
    let found = romfs.find("DUP.TXT").unwrap();
    assert_eq!(found.contents, &second[..]);
    assert_eq!(found.metadata.ctime, sample_time(1));
    assert!(romfs.find("MISSING.TXT").is_none());
}
