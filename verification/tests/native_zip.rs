use std::io::Read;

use proflow::native_zip::{
    Entry, NativeZipError, CENTRAL_DIRECTORY_HEADER, END_OF_CENTRAL_DIRECTORY,
    LOCAL_FILE_HEADER, UNIX_VERSION_3_0, ZIP64_END_OF_CENTRAL_DIRECTORY,
    ZIP64_END_OF_CENTRAL_DIRECTORY_LOCATOR, ZIP64_VERSION,
};

fn read_u16(bytes: &[u8], offset: usize) -> u16 {
    u16::from_le_bytes([bytes[offset], bytes[offset + 1]])
}

fn read_u32(bytes: &[u8], offset: usize) -> u32 {
    u32::from_le_bytes([
        bytes[offset],
        bytes[offset + 1],
        bytes[offset + 2],
        bytes[offset + 3],
    ])
}

fn read_u64(bytes: &[u8], offset: usize) -> u64 {
    let mut raw = [0u8; 8];
    raw.copy_from_slice(&bytes[offset..offset + 8]);
    u64::from_le_bytes(raw)
}

#[test]
fn writes_native_forced_zip64_records_and_global_member_order() {
    let bytes = proflow::native_zip::write(
        0,
        vec![
            Entry::borrowed("{Zulu}.pro".to_string(), b"z"),
            Entry::borrowed("data".to_string(), b"d"),
            Entry::borrowed("Alpha.pro".to_string(), b"a"),
        ],
    )
    .expect("write archive");

    assert_eq!(read_u32(&bytes, 0), LOCAL_FILE_HEADER);
    assert_eq!(read_u16(&bytes, 4), ZIP64_VERSION);
    assert_eq!(read_u32(&bytes, 18), u32::MAX);
    assert_eq!(read_u32(&bytes, 22), u32::MAX);
    let local_name_length = usize::from(read_u16(&bytes, 26));
    assert_eq!(read_u16(&bytes, 28), 28);
    assert_eq!(&bytes[30..30 + local_name_length], b"Alpha.pro");
    let local_extra = 30 + local_name_length;
    assert_eq!(read_u16(&bytes, local_extra), 0x0001);
    assert_eq!(read_u16(&bytes, local_extra + 2), 24);
    assert_eq!(read_u64(&bytes, local_extra + 4), 1);
    assert_eq!(read_u64(&bytes, local_extra + 12), 1);
    assert_eq!(read_u64(&bytes, local_extra + 20), 0);

    let central = bytes
        .windows(4)
        .position(|window| window == CENTRAL_DIRECTORY_HEADER.to_le_bytes())
        .expect("central directory");
    assert_eq!(read_u16(&bytes, central + 4), UNIX_VERSION_3_0);
    assert_eq!(read_u16(&bytes, central + 6), ZIP64_VERSION);
    assert_eq!(read_u32(&bytes, central + 20), u32::MAX);
    assert_eq!(read_u32(&bytes, central + 24), u32::MAX);
    assert_eq!(read_u16(&bytes, central + 30), 28);
    assert_eq!(read_u32(&bytes, central + 38), 0);
    let central_name_length = usize::from(read_u16(&bytes, central + 28));
    let central_extra = central + 46 + central_name_length;
    assert_eq!(read_u16(&bytes, central_extra), 0x0001);
    assert_eq!(read_u16(&bytes, central_extra + 2), 24);

    assert_eq!(
        read_u32(&bytes, bytes.len() - 98),
        ZIP64_END_OF_CENTRAL_DIRECTORY
    );
    assert_eq!(
        read_u32(&bytes, bytes.len() - 42),
        ZIP64_END_OF_CENTRAL_DIRECTORY_LOCATOR
    );
    assert_eq!(read_u32(&bytes, bytes.len() - 22), END_OF_CENTRAL_DIRECTORY);
    assert_eq!(
        read_u64(&bytes, bytes.len() - 98 + 40),
        u64::try_from(bytes.len() - central).expect("central directory size")
    );
    assert_eq!(
        read_u32(&bytes, bytes.len() - 22 + 12),
        u32::try_from(bytes.len() - central).expect("legacy central directory size")
    );

    let mut archive =
        zip::ZipArchive::new(std::io::Cursor::new(bytes)).expect("decode archive");
    let names = (0..archive.len())
        .map(|index| {
            archive
                .by_index(index)
                .expect("archive member")
                .name()
                .expect("member name")
                .to_string()
        })
        .collect::<Vec<_>>();
    assert_eq!(names, ["Alpha.pro", "data", "{Zulu}.pro"]);
}

#[test]
fn leaves_utf8_filename_flag_unset_like_native_exports() {
    let bytes = proflow::native_zip::write(
        0,
        vec![Entry::borrowed("Anástasis.pro".to_string(), b"presentation")],
    )
    .expect("write archive");
    assert_eq!(read_u16(&bytes, 6), 0, "local-header flags");
    let central = bytes
        .windows(4)
        .position(|window| window == CENTRAL_DIRECTORY_HEADER.to_le_bytes())
        .expect("central directory");
    assert_eq!(read_u16(&bytes, central + 8), 0, "central-header flags");
}

#[test]
fn stored_members_carry_their_crc_and_read_back() {
    let bytes = proflow::native_zip::write(0, vec![Entry::borrowed("data".to_string(), b"123456789")])
        .expect("write archive");
    assert_eq!(read_u32(&bytes, 14), 0xCBF4_3926);
    let mut archive =
        zip::ZipArchive::new(std::io::Cursor::new(bytes)).expect("decode archive");
    let mut member = archive.by_index(0).expect("member");
    let mut content = Vec::new();
    member.read_to_end(&mut content).expect("read member");
    assert_eq!(content, b"123456789");
}

#[test]
fn empty_archive_is_only_end_records_and_offsets_follow_the_start() {
    let bytes = proflow::native_zip::write(0, Vec::new()).expect("write archive");
    assert_eq!(bytes.len(), 98);
    let shifted = proflow::native_zip::write(1000, vec![Entry::borrowed("a".to_string(), b"x")]).expect("write");
    // The local record sits at offset 1000, so its ZIP64 extra records it.
    assert_eq!(read_u64(&shifted, 30 + 1 + 20), 1000);
}

#[test]
fn overlong_member_names_are_rejected() {
    let long = "n".repeat(70_000);
    assert_eq!(
        proflow::native_zip::write(0, vec![Entry::borrowed(long.clone(), b"")]).err(),
        Some(NativeZipError::PathTooLong(long))
    );
    assert_eq!(
        proflow::native_zip::write(u64::MAX - 10, vec![Entry::borrowed("a".to_string(), b"")]).err(),
        Some(NativeZipError::TooLarge)
    );
}
