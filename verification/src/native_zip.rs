//! The stored-only ZIP64 layout of native `ProPresenter` playlist packages.
//!
//! Every member is stored, every local and central record carries forced
//! ZIP64 metadata, and the archive ends with ZIP64 end records plus a
//! legacy end record. Members are laid out in ascending name order, the
//! literal `data` member included.
use vstd::prelude::*;
use vstd::utf8::encode_utf8;
use crate::text::{
    chars_of, is_permutation_of_range, is_stable_key_order, stable_key_order, string_into_bytes,
};

verus! {

/// Local file header signature.
pub const LOCAL_FILE_HEADER: u32 = 0x0403_4b50;
/// Central directory header signature.
pub const CENTRAL_DIRECTORY_HEADER: u32 = 0x0201_4b50;
/// ZIP64 end of central directory record signature.
pub const ZIP64_END_OF_CENTRAL_DIRECTORY: u32 = 0x0606_4b50;
/// ZIP64 end of central directory locator signature.
pub const ZIP64_END_OF_CENTRAL_DIRECTORY_LOCATOR: u32 = 0x0706_4b50;
/// End of central directory record signature.
pub const END_OF_CENTRAL_DIRECTORY: u32 = 0x0605_4b50;
/// Version needed to extract ZIP64 members.
pub const ZIP64_VERSION: u16 = 45;
/// Version made by: Unix, specification 3.0.
pub const UNIX_VERSION_3_0: u16 = 0x031e;
/// Length of the forced ZIP64 extra field.
pub const ZIP64_EXTRA_FIELD_LENGTH: u16 = 28;
/// The DOS date 1980-01-01.
pub const DOS_1980_01_01: u16 = 0x0021;
/// The bytes of the three end records, which native exports count in the
/// central directory size.
pub const NATIVE_END_RECORDS_SIZE: u64 = 98;

/// The CRC-32 (IEEE) checksum of a byte sequence, as crc32fast computes it.
pub uninterp spec fn crc32_of(bytes: Seq<u8>) -> u32;

/// crc32fast `hash`: the CRC-32 (IEEE) checksum of `bytes`.
#[verifier::external_body]
fn crc32(bytes: &[u8]) -> (c: u32)
    ensures
        c == crc32_of(bytes@),
{
    crc32fast::hash(bytes)
}

// ---------------------------------------------------------------------------
// Little-endian encodings
// ---------------------------------------------------------------------------

/// std `u16::to_le_bytes`.
pub open spec fn le16(v: u16) -> Seq<u8> {
    seq![(v % 256) as u8, (v / 256) as u8]
}

/// std `u32::to_le_bytes`.
pub open spec fn le32(v: u32) -> Seq<u8> {
    seq![(v % 256) as u8, ((v / 256) % 256) as u8, ((v / 65536) % 256) as u8, (v / 16777216) as u8]
}

/// std `u64::to_le_bytes`.
pub open spec fn le64(v: u64) -> Seq<u8> {
    le32((v % 4294967296) as u32) + le32((v / 4294967296) as u32)
}

fn push_le16(out: &mut Vec<u8>, v: u16)
    ensures
        final(out)@ == old(out)@ + le16(v),
{
    out.push((v % 256) as u8);
    out.push((v / 256) as u8);
    proof {
        assert(final(out)@ =~= old(out)@ + le16(v));
    }
}

fn push_le32(out: &mut Vec<u8>, v: u32)
    ensures
        final(out)@ == old(out)@ + le32(v),
{
    out.push((v % 256) as u8);
    out.push(((v / 256) % 256) as u8);
    out.push(((v / 65536) % 256) as u8);
    out.push((v / 16777216) as u8);
    proof {
        assert(final(out)@ =~= old(out)@ + le32(v));
    }
}

fn push_le64(out: &mut Vec<u8>, v: u64)
    ensures
        final(out)@ == old(out)@ + le64(v),
{
    push_le32(out, (v % 4294967296) as u32);
    push_le32(out, (v / 4294967296) as u32);
    proof {
        assert(final(out)@ =~= old(out)@ + le64(v));
    }
}

fn push_bytes(out: &mut Vec<u8>, b: &[u8])
    ensures
        final(out)@ == old(out)@ + b@,
{
    let mut k: usize = 0;
    while k < b.len()
        invariant
            k <= b.len(),
            out@ == old(out)@ + b@.take(k as int),
        decreases b.len() - k,
    {
        out.push(b[k]);
        k += 1;
        proof {
            assert(out@ =~= old(out)@ + b@.take(k as int));
        }
    }
    proof {
        assert(b@.take(k as int) =~= b@);
    }
}

// ---------------------------------------------------------------------------
// Records
// ---------------------------------------------------------------------------

/// One member: its name's UTF-8 bytes and its data.
pub type MemberBytes = (Seq<u8>, Seq<u8>);

/// The forced ZIP64 extra field.
pub open spec fn zip64_extra(size: u64, offset: u64) -> Seq<u8> {
    le16(1) + le16(24) + le64(size) + le64(size) + le64(offset)
}

/// The local record of member `m` at `offset`.
#[verifier::opaque]
pub open spec fn local_record(m: MemberBytes, offset: int) -> Seq<u8> {
    le32(LOCAL_FILE_HEADER) + le16(ZIP64_VERSION) + le16(0) + le16(0) + le16(0) + le16(DOS_1980_01_01)
        + le32(crc32_of(m.1)) + le32(0xFFFF_FFFF) + le32(0xFFFF_FFFF) + le16(m.0.len() as u16) + le16(
        ZIP64_EXTRA_FIELD_LENGTH,
    ) + m.0 + zip64_extra(m.1.len() as u64, offset as u64) + m.1
}

/// The byte length of a local record.
pub open spec fn local_len(m: MemberBytes) -> int {
    (58 + m.0.len() + m.1.len()) as int
}

/// A 64-bit value saturated to 32 bits.
pub open spec fn saturate32(v: int) -> u32 {
    if v <= 0xFFFF_FFFF {
        v as u32
    } else {
        0xFFFF_FFFF
    }
}

/// A 64-bit value saturated to 16 bits.
pub open spec fn saturate16(v: int) -> u16 {
    if v <= 0xFFFF {
        v as u16
    } else {
        0xFFFF
    }
}

/// The central record of member `m` whose local record is at `offset`.
#[verifier::opaque]
pub open spec fn central_record(m: MemberBytes, offset: int) -> Seq<u8> {
    le32(CENTRAL_DIRECTORY_HEADER) + le16(UNIX_VERSION_3_0) + le16(ZIP64_VERSION) + le16(0) + le16(0)
        + le16(0) + le16(DOS_1980_01_01) + le32(crc32_of(m.1)) + le32(0xFFFF_FFFF) + le32(0xFFFF_FFFF)
        + le16(m.0.len() as u16) + le16(ZIP64_EXTRA_FIELD_LENGTH) + le16(0) + le16(0) + le16(0) + le32(0)
        + le32(saturate32(offset)) + m.0 + zip64_extra(m.1.len() as u64, offset as u64)
}

/// The byte length of a central record.
pub open spec fn central_len(m: MemberBytes) -> int {
    (74 + m.0.len()) as int
}

/// The local records of `ms`, the first at `offset`.
pub open spec fn local_section(ms: Seq<MemberBytes>, offset: int) -> Seq<u8>
    decreases ms.len(),
{
    if ms.len() == 0 {
        seq![]
    } else {
        local_record(ms[0], offset) + local_section(ms.drop_first(), offset + local_len(ms[0]))
    }
}

/// The central records of `ms`, whose local records start at `offset`.
pub open spec fn central_section(ms: Seq<MemberBytes>, offset: int) -> Seq<u8>
    decreases ms.len(),
{
    if ms.len() == 0 {
        seq![]
    } else {
        central_record(ms[0], offset) + central_section(ms.drop_first(), offset + local_len(ms[0]))
    }
}

/// The ZIP64 end of central directory record.
pub open spec fn zip64_end_record(count: int, cd_offset: int, cd_end: int) -> Seq<u8> {
    le32(ZIP64_END_OF_CENTRAL_DIRECTORY) + le64(44) + le16(UNIX_VERSION_3_0) + le16(ZIP64_VERSION)
        + le32(0) + le32(0) + le64(count as u64) + le64(count as u64) + le64(
        (cd_end - cd_offset + NATIVE_END_RECORDS_SIZE) as u64,
    ) + le64(cd_offset as u64)
}

/// The ZIP64 end of central directory locator.
pub open spec fn zip64_locator(cd_end: int) -> Seq<u8> {
    le32(ZIP64_END_OF_CENTRAL_DIRECTORY_LOCATOR) + le32(0) + le64(cd_end as u64) + le32(1)
}

/// The legacy end of central directory record, with saturated fields.
pub open spec fn legacy_end_record(count: int, cd_offset: int, cd_end: int) -> Seq<u8> {
    le32(END_OF_CENTRAL_DIRECTORY) + le16(0) + le16(0) + le16(saturate16(count)) + le16(
        saturate16(count),
    ) + le32(saturate32(cd_end - cd_offset + NATIVE_END_RECORDS_SIZE)) + le32(saturate32(cd_offset))
        + le16(0)
}

/// The three end records for `count` members whose central directory
/// spans `cd_offset..cd_end`; native exports count the end records in the
/// central directory size.
#[verifier::opaque]
pub open spec fn end_records(count: int, cd_offset: int, cd_end: int) -> Seq<u8> {
    zip64_end_record(count, cd_offset, cd_end) + zip64_locator(cd_end) + legacy_end_record(
        count,
        cd_offset,
        cd_end,
    )
}

/// The archive bytes written from `start` for members `ms` in order.
pub open spec fn archive_bytes(ms: Seq<MemberBytes>, start: int) -> Seq<u8> {
    let locals = local_section(ms, start);
    let centrals = central_section(ms, start);
    let cd_offset = start + locals.len();
    let cd_end = cd_offset + centrals.len();
    locals + centrals + end_records(ms.len() as int, cd_offset, cd_end)
}

/// The total length of the records of `ms`.
pub open spec fn records_len(ms: Seq<MemberBytes>) -> int
    decreases ms.len(),
{
    if ms.len() == 0 {
        0
    } else {
        local_len(ms[0]) + central_len(ms[0]) + records_len(ms.drop_first())
    }
}


/// The total length of the local records of `ms`.
pub open spec fn locals_len(ms: Seq<MemberBytes>) -> int
    decreases ms.len(),
{
    if ms.len() == 0 {
        0
    } else {
        local_len(ms[0]) + locals_len(ms.drop_first())
    }
}

/// The total length of the central records of `ms`.
pub open spec fn centrals_len(ms: Seq<MemberBytes>) -> int
    decreases ms.len(),
{
    if ms.len() == 0 {
        0
    } else {
        central_len(ms[0]) + centrals_len(ms.drop_first())
    }
}

proof fn lemma_local_record_len(m: MemberBytes, offset: int)
    ensures
        local_record(m, offset).len() == local_len(m),
{
    reveal(local_record);
}

proof fn lemma_central_record_len(m: MemberBytes, offset: int)
    ensures
        central_record(m, offset).len() == central_len(m),
{
    reveal(central_record);
}

proof fn lemma_local_section_len(ms: Seq<MemberBytes>, offset: int)
    ensures
        local_section(ms, offset).len() == locals_len(ms),
        locals_len(ms) >= 0,
    decreases ms.len(),
{
    if ms.len() > 0 {
        lemma_local_record_len(ms[0], offset);
        lemma_local_section_len(ms.drop_first(), offset + local_len(ms[0]));
    }
}

proof fn lemma_central_section_len(ms: Seq<MemberBytes>, offset: int)
    ensures
        central_section(ms, offset).len() == centrals_len(ms),
        centrals_len(ms) >= 0,
    decreases ms.len(),
{
    if ms.len() > 0 {
        lemma_central_record_len(ms[0], offset);
        lemma_central_section_len(ms.drop_first(), offset + local_len(ms[0]));
    }
}

fn push_zip64_extra(out: &mut Vec<u8>, size: u64, offset: u64)
    ensures
        final(out)@ == old(out)@ + zip64_extra(size, offset),
{
    push_le16(out, 1);
    push_le16(out, 24);
    push_le64(out, size);
    push_le64(out, size);
    push_le64(out, offset);
    proof {
        assert(final(out)@ =~= old(out)@ + zip64_extra(size, offset));
    }
}

fn push_local_record(out: &mut Vec<u8>, name: &[u8], data: &[u8], crc: u32, offset: u64)
    requires
        name.len() <= 0xFFFF,
        crc == crc32_of(data@),
    ensures
        final(out)@ == old(out)@ + local_record((name@, data@), offset as int),
{
    push_le32(out, LOCAL_FILE_HEADER);
    push_le16(out, ZIP64_VERSION);
    push_le16(out, 0);
    push_le16(out, 0);
    push_le16(out, 0);
    push_le16(out, DOS_1980_01_01);
    push_le32(out, crc);
    push_le32(out, 0xFFFF_FFFF);
    push_le32(out, 0xFFFF_FFFF);
    push_le16(out, name.len() as u16);
    push_le16(out, ZIP64_EXTRA_FIELD_LENGTH);
    push_bytes(out, name);
    push_zip64_extra(out, data.len() as u64, offset);
    push_bytes(out, data);
    proof {
        reveal(local_record);
        assert(final(out)@ =~= old(out)@ + local_record((name@, data@), offset as int));
    }
}

fn push_central_record(out: &mut Vec<u8>, name: &[u8], data: &[u8], crc: u32, offset: u64)
    requires
        name.len() <= 0xFFFF,
        crc == crc32_of(data@),
    ensures
        final(out)@ == old(out)@ + central_record((name@, data@), offset as int),
{
    push_le32(out, CENTRAL_DIRECTORY_HEADER);
    push_le16(out, UNIX_VERSION_3_0);
    push_le16(out, ZIP64_VERSION);
    push_le16(out, 0);
    push_le16(out, 0);
    push_le16(out, 0);
    push_le16(out, DOS_1980_01_01);
    push_le32(out, crc);
    push_le32(out, 0xFFFF_FFFF);
    push_le32(out, 0xFFFF_FFFF);
    push_le16(out, name.len() as u16);
    push_le16(out, ZIP64_EXTRA_FIELD_LENGTH);
    push_le16(out, 0);
    push_le16(out, 0);
    push_le16(out, 0);
    push_le32(out, 0);
    let short: u32 = if offset <= 0xFFFF_FFFF {
        offset as u32
    } else {
        0xFFFF_FFFF
    };
    push_le32(out, short);
    push_bytes(out, name);
    push_zip64_extra(out, data.len() as u64, offset);
    proof {
        reveal(central_record);
        assert(final(out)@ =~= old(out)@ + central_record((name@, data@), offset as int));
    }
}

fn push_zip64_end_record(out: &mut Vec<u8>, count: u64, cd_offset: u64, native_size: u64)
    ensures
        final(out)@ == old(out)@ + le32(ZIP64_END_OF_CENTRAL_DIRECTORY) + le64(44) + le16(UNIX_VERSION_3_0)
            + le16(ZIP64_VERSION) + le32(0) + le32(0) + le64(count) + le64(count) + le64(native_size)
            + le64(cd_offset),
{
    push_le32(out, ZIP64_END_OF_CENTRAL_DIRECTORY);
    push_le64(out, 44);
    push_le16(out, UNIX_VERSION_3_0);
    push_le16(out, ZIP64_VERSION);
    push_le32(out, 0);
    push_le32(out, 0);
    push_le64(out, count);
    push_le64(out, count);
    push_le64(out, native_size);
    push_le64(out, cd_offset);
}

fn push_zip64_locator(out: &mut Vec<u8>, cd_end: u64)
    ensures
        final(out)@ == old(out)@ + zip64_locator(cd_end as int),
{
    push_le32(out, ZIP64_END_OF_CENTRAL_DIRECTORY_LOCATOR);
    push_le32(out, 0);
    push_le64(out, cd_end);
    push_le32(out, 1);
    proof {
        assert(final(out)@ =~= old(out)@ + zip64_locator(cd_end as int));
    }
}

fn push_legacy_end_record(out: &mut Vec<u8>, count: u64, cd_offset: u64, native_size: u64)
    ensures
        final(out)@ == old(out)@ + le32(END_OF_CENTRAL_DIRECTORY) + le16(0) + le16(0) + le16(
            saturate16(count as int),
        ) + le16(saturate16(count as int)) + le32(saturate32(native_size as int)) + le32(
            saturate32(cd_offset as int),
        ) + le16(0),
{
    push_le32(out, END_OF_CENTRAL_DIRECTORY);
    push_le16(out, 0);
    push_le16(out, 0);
    let short_count: u16 = if count <= 0xFFFF {
        count as u16
    } else {
        0xFFFF
    };
    push_le16(out, short_count);
    push_le16(out, short_count);
    let short_size: u32 = if native_size <= 0xFFFF_FFFF {
        native_size as u32
    } else {
        0xFFFF_FFFF
    };
    push_le32(out, short_size);
    let short_offset: u32 = if cd_offset <= 0xFFFF_FFFF {
        cd_offset as u32
    } else {
        0xFFFF_FFFF
    };
    push_le32(out, short_offset);
    push_le16(out, 0);
}

#[verifier::rlimit(40)]
fn push_end_records(out: &mut Vec<u8>, count: u64, cd_offset: u64, cd_end: u64)
    requires
        cd_offset <= cd_end,
        cd_end - cd_offset + NATIVE_END_RECORDS_SIZE <= u64::MAX,
    ensures
        final(out)@ == old(out)@ + end_records(count as int, cd_offset as int, cd_end as int),
{
    let native_size: u64 = cd_end - cd_offset + NATIVE_END_RECORDS_SIZE;
    let ghost s0 = out@;
    push_zip64_end_record(out, count, cd_offset, native_size);
    let ghost s1 = out@;
    proof {
        assert(s1 =~= s0 + zip64_end_record(count as int, cd_offset as int, cd_end as int));
    }
    push_zip64_locator(out, cd_end);
    let ghost s2 = out@;
    push_legacy_end_record(out, count, cd_offset, native_size);
    proof {
        assert(out@ =~= s2 + legacy_end_record(count as int, cd_offset as int, cd_end as int));
        reveal(end_records);
        assert(out@ =~= s0 + end_records(count as int, cd_offset as int, cd_end as int));
    }
}


// ---------------------------------------------------------------------------
// The archive
// ---------------------------------------------------------------------------

/// One member of a native playlist archive.
pub struct Entry<'a> {
    name: String,
    data: &'a [u8],
}

impl<'a> Entry<'a> {
    /// The member's name.
    pub closed spec fn name_view(self) -> Seq<char> {
        self.name@
    }

    /// The member's bytes.
    pub closed spec fn data_view(self) -> Seq<u8> {
        self.data@
    }

    /// An entry borrowing bytes owned by the playlist build.
    pub fn borrowed(name: String, data: &'a [u8]) -> (e: Self)
        ensures
            e.name_view() == name@,
            e.data_view() == data@,
    {
        Entry { name, data }
    }
}

/// Why an archive cannot be laid out.
#[derive(Debug, PartialEq, Eq)]
pub enum NativeZipError {
    /// A member name is longer than a ZIP record can hold.
    PathTooLong(String),
    /// The archive would extend past the largest 64-bit offset.
    TooLarge,
}

/// The member bytes of an entry.
pub open spec fn member_of(e: Entry) -> MemberBytes {
    (encode_utf8(e.name_view()), e.data_view())
}

/// The members in the given order.
pub open spec fn ordered_members(es: Seq<Entry>, order: Seq<usize>) -> Seq<MemberBytes> {
    order.map_values(|i: usize| member_of(es[i as int]))
}

/// The names of a run of entries.
pub open spec fn entry_name_views(es: Seq<Entry>) -> Seq<Seq<char>> {
    es.map_values(|e: Entry| e.name_view())
}

/// Member `i` has a name too long for a record.
pub open spec fn name_too_long(ms: Seq<MemberBytes>, i: int) -> bool {
    ms[i].0.len() > 0xFFFF
}

/// What laying out the members in order yields from offset `start`.
pub open spec fn layout_result(
    es: Seq<Entry>,
    order: Seq<usize>,
    start: int,
    r: Result<Vec<u8>, NativeZipError>,
) -> bool {
    let ms = ordered_members(es, order);
    if exists|i: int| 0 <= i < ms.len() && name_too_long(ms, i) {
        exists|i: int|
            0 <= i < ms.len() && name_too_long(ms, i) && (forall|j: int| 0 <= j < i ==> !name_too_long(ms, j))
                && (r matches Err(NativeZipError::PathTooLong(n)) && n@ == es[order[i] as int].name_view())
    } else if start + locals_len(ms) + centrals_len(ms) + NATIVE_END_RECORDS_SIZE > u64::MAX {
        r == Err::<Vec<u8>, NativeZipError>(NativeZipError::TooLarge)
    } else {
        r matches Ok(b) && b@ == archive_bytes(ms, start)
    }
}

/// Lays out a native playlist archive whose first byte sits at offset
/// `start`: members in ascending name order (ties keep their given order),
/// each stored with forced ZIP64 metadata, then the central directory and
/// the end records.
pub fn write(start: u64, entries: Vec<Entry<'_>>) -> (r: Result<Vec<u8>, NativeZipError>)
    ensures
        exists|order: Seq<usize>|
            is_permutation_of_range(order, entries@.len() as nat) && is_stable_key_order(
                entry_name_views(entries@),
                order,
            ) && layout_result(entries@, order, start as int, r),
{
    let ghost es = entries@;
    let mut keys: Vec<Vec<char>> = Vec::new();
    let mut k: usize = 0;
    while k < entries.len()
        invariant
            k <= entries.len(),
            es == entries@,
            keys.len() == k,
            forall|q: int| 0 <= q < k ==> #[trigger] keys@[q]@ == es[q].name_view(),
        decreases entries.len() - k,
    {
        keys.push(chars_of(entries[k].name.as_str()));
        k += 1;
    }
    let order = stable_key_order(&keys);
    proof {
        assert(keys@.map_values(|v: Vec<char>| v@) =~= entry_name_views(es));
    }
    let ghost ms = ordered_members(es, order@);
    let n = order.len();
    assert(is_stable_key_order(entry_name_views(es), order@));
    // Member bytes in layout order.
    let mut names: Vec<Vec<u8>> = Vec::new();
    let mut datas: Vec<&[u8]> = Vec::new();
    let mut i: usize = 0;
    while i < n
        invariant
            i <= n == order.len() == es.len(),
            es == entries@,
            is_permutation_of_range(order@, es.len() as nat),
            ms == ordered_members(es, order@),
            names.len() == i,
            datas.len() == i,
            forall|q: int| 0 <= q < i ==> #[trigger] names@[q]@ == ms[q].0 && datas@[q]@ == ms[q].1,
        decreases n - i,
    {
        let e = &entries[order[i]];
        names.push(string_into_bytes(e.name.clone()));
        datas.push(e.data);
        proof {
            assert(ms[i as int] == member_of(es[order@[i as int] as int]));
        }
        i += 1;
    }
    // Names must fit their length field.
    let mut i: usize = 0;
    while i < n
        invariant
            i <= n == names.len() == ms.len(),
            es == entries@,
            order.len() == es.len(),
            is_permutation_of_range(order@, es.len() as nat),
            is_stable_key_order(entry_name_views(es), order@),
            ms == ordered_members(es, order@),
            forall|q: int| 0 <= q < n ==> #[trigger] names@[q]@ == ms[q].0,
            forall|q: int| 0 <= q < i ==> !name_too_long(ms, q),
        decreases n - i,
    {
        if names[i].len() > 0xFFFF {
            let e = &entries[order[i]];
            let r = Err(NativeZipError::PathTooLong(e.name.clone()));
            proof {
                assert(ms[i as int].0.len() > 0xFFFF);
                assert(name_too_long(ms, i as int));
                assert(r matches Err(NativeZipError::PathTooLong(nm)) && nm@ == es[order@[i as int] as int].name_view());
                assert(layout_result(es, order@, start as int, r));
            }
            return r;
        }
        i += 1;
    }
    // The archive must end within 64-bit offsets.
    let ghost total = start + locals_len(ms) + centrals_len(ms) + NATIVE_END_RECORDS_SIZE;
    let mut acc: u64 = start;
    let mut i: usize = 0;
    proof {
        assert(ms.skip(0) =~= ms);
    }
    while i < n
        invariant
            i <= n == names.len() == datas.len() == ms.len(),
            forall|q: int| 0 <= q < n ==> #[trigger] names@[q]@ == ms[q].0 && datas@[q]@ == ms[q].1,
            acc + locals_len(ms.skip(i as int)) == start + locals_len(ms),
            es == entries@,
            order.len() == es.len(),
            is_permutation_of_range(order@, es.len() as nat),
            is_stable_key_order(entry_name_views(es), order@),
            ms == ordered_members(es, order@),
            forall|q: int| 0 <= q < n ==> !name_too_long(ms, q),
        decreases n - i,
    {
        proof {
            assert(ms.skip(i as int)[0] == ms[i as int]);
            assert(ms.skip(i as int).drop_first() =~= ms.skip(i + 1));
            lemma_local_section_len(ms.skip(i + 1), 0);
            lemma_central_section_len(ms, 0);
        }
        let step = match acc.checked_add(58) {
            Some(a) => match a.checked_add(names[i].len() as u64) {
                Some(b) => b.checked_add(datas[i].len() as u64),
                None => None,
            },
            None => None,
        };
        match step {
            Some(v) => acc = v,
            None => {
                let r = Err(NativeZipError::TooLarge);
                proof {
                    assert(!exists|q: int| 0 <= q < ms.len() && name_too_long(ms, q));
                    assert(layout_result(es, order@, start as int, r));
                }
                return r;
            },
        }
        i += 1;
    }
    proof {
        assert(ms.skip(n as int) =~= Seq::<MemberBytes>::empty());
        assert(ms.skip(0) =~= ms);
    }
    let mut i: usize = 0;
    while i < n
        invariant
            i <= n == names.len() == datas.len() == ms.len(),
            forall|q: int| 0 <= q < n ==> #[trigger] names@[q]@ == ms[q].0 && datas@[q]@ == ms[q].1,
            acc + centrals_len(ms.skip(i as int)) == start + locals_len(ms) + centrals_len(ms),
            es == entries@,
            order.len() == es.len(),
            is_permutation_of_range(order@, es.len() as nat),
            is_stable_key_order(entry_name_views(es), order@),
            ms == ordered_members(es, order@),
            forall|q: int| 0 <= q < n ==> !name_too_long(ms, q),
        decreases n - i,
    {
        proof {
            assert(ms.skip(i as int)[0] == ms[i as int]);
            assert(ms.skip(i as int).drop_first() =~= ms.skip(i + 1));
            lemma_central_section_len(ms.skip(i + 1), 0);
        }
        let step = match acc.checked_add(74) {
            Some(a) => a.checked_add(names[i].len() as u64),
            None => None,
        };
        match step {
            Some(v) => acc = v,
            None => {
                let r = Err(NativeZipError::TooLarge);
                proof {
                    lemma_local_section_len(ms, 0);
                    assert(!exists|q: int| 0 <= q < ms.len() && name_too_long(ms, q));
                    assert(layout_result(es, order@, start as int, r));
                }
                return r;
            },
        }
        i += 1;
    }
    proof {
        assert(ms.skip(n as int) =~= Seq::<MemberBytes>::empty());
    }
    if acc.checked_add(NATIVE_END_RECORDS_SIZE).is_none() {
        let r = Err(NativeZipError::TooLarge);
        proof {
            assert(!exists|q: int| 0 <= q < ms.len() && name_too_long(ms, q));
            assert(layout_result(es, order@, start as int, r));
        }
        return r;
    }
    proof {
        assert(total <= u64::MAX);
        assert(!exists|q: int| 0 <= q < ms.len() && name_too_long(ms, q));
    }
    // Local records.
    let mut out: Vec<u8> = Vec::new();
    let mut crcs: Vec<u32> = Vec::new();
    let mut off: u64 = start;
    let mut i: usize = 0;
    proof {
        assert(ms.skip(0) =~= ms);
        lemma_central_section_len(ms, 0);
    }
    while i < n
        invariant
            i <= n == names.len() == datas.len() == ms.len(),
            forall|q: int| 0 <= q < n ==> #[trigger] names@[q]@ == ms[q].0 && datas@[q]@ == ms[q].1,
            forall|q: int| 0 <= q < n ==> !name_too_long(ms, q),
            total == start + locals_len(ms) + centrals_len(ms) + NATIVE_END_RECORDS_SIZE,
            total <= u64::MAX,
            centrals_len(ms) >= 0,
            local_section(ms, start as int) == out@ + local_section(ms.skip(i as int), off as int),
            off + locals_len(ms.skip(i as int)) == start + locals_len(ms),
            crcs.len() == i,
            forall|q: int| 0 <= q < i ==> #[trigger] crcs@[q] == crc32_of(ms[q].1),
        decreases n - i,
    {
        let ghost rest = ms.skip(i as int);
        proof {
            assert(rest[0] == ms[i as int]);
            assert(rest.drop_first() =~= ms.skip(i + 1));
            lemma_local_section_len(ms.skip(i + 1), 0);
        }
        let crc = crc32(datas[i]);
        proof {
            assert(!name_too_long(ms, i as int));
            assert(names@[i as int]@.len() <= 0xFFFF);
        }
        push_local_record(&mut out, names[i].as_slice(), datas[i], crc, off);
        crcs.push(crc);
        off = off + 58 + names[i].len() as u64 + datas[i].len() as u64;
        i += 1;
    }
    proof {
        assert(ms.skip(n as int) =~= Seq::<MemberBytes>::empty());
        assert(out@ =~= local_section(ms, start as int));
        lemma_local_section_len(ms, start as int);
    }
    let cd_offset = off;
    // Central records.
    let ghost locals = out@;
    let ghost mut cdone: Seq<u8> = Seq::empty();
    let mut loc: u64 = start;
    let mut i: usize = 0;
    proof {
        assert(ms.skip(0) =~= ms);
    }
    while i < n
        invariant
            i <= n == names.len() == datas.len() == ms.len() == crcs.len(),
            forall|q: int| 0 <= q < n ==> #[trigger] names@[q]@ == ms[q].0 && datas@[q]@ == ms[q].1,
            forall|q: int| 0 <= q < n ==> #[trigger] crcs@[q] == crc32_of(ms[q].1),
            forall|q: int| 0 <= q < n ==> !name_too_long(ms, q),
            total == start + locals_len(ms) + centrals_len(ms) + NATIVE_END_RECORDS_SIZE,
            total <= u64::MAX,
            out@ == locals + cdone,
            centrals_len(ms) >= 0,
            central_section(ms, start as int) == cdone + central_section(ms.skip(i as int), loc as int),
            loc + locals_len(ms.skip(i as int)) == start + locals_len(ms),
        decreases n - i,
    {
        let ghost rest = ms.skip(i as int);
        proof {
            assert(rest[0] == ms[i as int]);
            assert(rest.drop_first() =~= ms.skip(i + 1));
            lemma_local_section_len(ms.skip(i + 1), 0);
        }
        proof {
            assert(!name_too_long(ms, i as int));
            assert(names@[i as int]@.len() <= 0xFFFF);
        }
        push_central_record(&mut out, names[i].as_slice(), datas[i], crcs[i], loc);
        proof {
            cdone = cdone + central_record(ms[i as int], loc as int);
        }
        loc = loc + 58 + names[i].len() as u64 + datas[i].len() as u64;
        i += 1;
    }
    proof {
        assert(ms.skip(n as int) =~= Seq::<MemberBytes>::empty());
        assert(cdone =~= central_section(ms, start as int));
        lemma_central_section_len(ms, start as int);
    }
    let cd_end: u64 = cd_offset + (out.len() as u64 - (cd_offset - start));
    proof {
        assert(cd_end == start + locals_len(ms) + centrals_len(ms));
    }
    push_end_records(&mut out, n as u64, cd_offset, cd_end);
    proof {
        assert(out@ =~= archive_bytes(ms, start as int));
        assert(layout_result(es, order@, start as int, Ok::<Vec<u8>, NativeZipError>(out)));
    }
    Ok(out)
}

} // verus!
