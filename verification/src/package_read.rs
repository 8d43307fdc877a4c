//! Reading the members of a `.proplaylist` archive: every member's
//! metadata and bytes in physical order, and the archive comment. The ZIP
//! container itself is parsed by the `zip` crate.
use vstd::prelude::*;
use crate::package_model::{
    extra_field_ids, member_basename, names_presentation, package_file_summary, PackageError,
    PackageFileSummary,
};
use crate::text::string_from_utf8;
use vstd::utf8::*;
use std::io::{Cursor, Read};
use zip::result::ZipResult;
use zip::ZipArchive;

verus! {

/// What the `zip` crate reports about one archive member: the stored name
/// bytes, the name as the crate decodes it, the uncompressed size, the
/// recorded CRC-32, the `Debug` rendering of the compression method, the
/// directory flag, version made by, Unix permission bits, the local
/// extra-field bytes (none when empty) and the member comment.
pub type ZipMemberInfo = (Vec<u8>, String, u64, u32, String, bool, (u8, u8), Option<u32>, Option<Vec<u8>>, String);

/// The plain values of a [`ZipMemberInfo`].
pub struct ZipMemberView {
    /// The stored name bytes.
    pub name_raw: Seq<u8>,
    /// The name as the crate decodes it.
    pub name: Seq<char>,
    /// Uncompressed size.
    pub size: u64,
    /// Recorded CRC-32.
    pub crc32: u32,
    /// `Debug` rendering of the compression method.
    pub compression: Seq<char>,
    /// Whether the member is a directory.
    pub is_dir: bool,
    /// Version made by.
    pub version_made_by: (u8, u8),
    /// Unix permission bits.
    pub unix_mode: Option<u32>,
    /// The local extra-field bytes.
    pub extra_data: Seq<u8>,
    /// The member comment.
    pub comment: Seq<char>,
}

/// The plain values of a [`ZipMemberInfo`].
pub open spec fn info_view(i: ZipMemberInfo) -> ZipMemberView {
    ZipMemberView {
        name_raw: i.0@,
        name: i.1@,
        size: i.2,
        crc32: i.3,
        compression: i.4@,
        is_dir: i.5,
        version_made_by: i.6,
        unix_mode: i.7,
        extra_data: match i.8 {
            Some(d) => d@,
            None => Seq::empty(),
        },
        comment: i.9@,
    }
}

/// The outcome of reading an archive with the `zip` crate: each member's
/// information and bytes in central-directory order with the archive
/// comment, or the text of the first error.
pub uninterp spec fn zip_members(archive: Seq<u8>) -> Result<(Seq<(ZipMemberView, Seq<u8>)>, Seq<u8>), Seq<char>>;

/// The plain values of a read archive.
pub open spec fn zip_read_view(r: Result<(Vec<(ZipMemberInfo, Vec<u8>)>, Vec<u8>), String>) -> Result<
    (Seq<(ZipMemberView, Seq<u8>)>, Seq<u8>),
    Seq<char>,
> {
    match r {
        Ok((ms, c)) => Ok((ms@.map_values(|m: (ZipMemberInfo, Vec<u8>)| (info_view(m.0), m.1@)), c@)),
        Err(e) => Err(e@),
    }
}

/// Reads every member of an in-memory archive with `zip::ZipArchive`:
/// `ZipArchive::new`, then `by_index` and `read_to_end` for each index, and
/// `comment`. The result is named by [`zip_members`]; which archives the
/// crate accepts and how it reports errors (their `Display` text) is not
/// stated.
#[verifier::external_body]
fn read_zip(archive: &[u8]) -> (r: Result<(Vec<(ZipMemberInfo, Vec<u8>)>, Vec<u8>), String>)
    ensures
        zip_read_view(r) == zip_members(archive@),
{
    (|| -> ZipResult<_> {
        let mut z = ZipArchive::new(Cursor::new(archive))?;
        let mut members = vec![];
        for i in 0..z.len() {
            let mut f = z.by_index(i)?;
            let mut bytes = vec![];
            f.read_to_end(&mut bytes)?;
            members.push(((f.name_raw().to_vec(), f.name()?.to_string(), f.size(), f.crc32(),
                format!("{:?}", f.compression()), f.is_dir(), f.version_made_by(), f.unix_mode(), f.extra_data(),
                f.comment().to_string()), bytes));
        }
        Ok((members, z.comment().to_vec()))
    })().map_err(|e| e.to_string())
}

/// The member name a package records: the stored bytes when they are
/// UTF-8, else the crate's decoding.
pub open spec fn native_member_name(m: ZipMemberView) -> Seq<char> {
    if valid_utf8(m.name_raw) {
        decode_utf8(m.name_raw)
    } else {
        m.name
    }
}

/// `s` is the package metadata of member `m`.
pub open spec fn summarizes(s: PackageFileSummary, m: ZipMemberView) -> bool {
    let name = native_member_name(m);
    &&& s.name@ == name
    &&& s.basename@ == member_basename(name)
    &&& s.is_presentation == names_presentation(member_basename(name))
    &&& s.size == m.size
    &&& s.crc32 == m.crc32
    &&& s.compression_method@ == m.compression
    &&& s.is_directory == m.is_dir
    &&& s.version_made_by == m.version_made_by
    &&& s.unix_mode == m.unix_mode
    &&& s.extra_field_ids@ == extra_field_ids(m.extra_data)
    &&& s.comment@ == m.comment
}

/// Reads a `.proplaylist` archive into its members' metadata and bytes, in
/// physical order, and the archive comment. A container the `zip` crate
/// refuses is a [`PackageError::Zip`] with the crate's message.
pub fn package_members_from_archive(archive: &[u8]) -> (r: Result<(Vec<(PackageFileSummary, Vec<u8>)>, Vec<u8>), PackageError>)
    ensures
        match zip_members(archive@) {
            Err(m) => r matches Err(PackageError::Zip(e)) && e@ == m,
            Ok((ms, c)) => r matches Ok((v, rc)) && rc@ == c && v@.len() == ms.len() && forall|k: int|
                0 <= k < ms.len() ==> summarizes(#[trigger] v@[k].0, ms[k].0) && v@[k].1@ == ms[k].1,
        },
{
    let read = read_zip(archive);
    let ghost rv = zip_read_view(read);
    match read {
        Err(e) => Err(PackageError::Zip(e)),
        Ok((members, comment)) => {
            let ghost ms = rv->Ok_0.0;
            let mut out: Vec<(PackageFileSummary, Vec<u8>)> = Vec::new();
            let n = members.len();
            let mut rest = members;
            let mut k: usize = 0;
            proof {
                assert forall|q: int| 0 <= q < rest@.len() implies info_view((#[trigger] rest@[q]).0) == ms[q].0 && rest@[q].1@ == ms[q].1 by {
                    assert(ms[q] == (info_view(rest@[q].0), rest@[q].1@));
                }
            }
            while k < n
                invariant
                    0 <= k <= ms.len(),
                    n == ms.len(),
                    ms.len() == k + rest@.len(),
                    forall|q: int| 0 <= q < rest@.len() ==> info_view((#[trigger] rest@[q]).0) == ms[k + q].0 && rest@[q].1@ == ms[k + q].1,
                    out@.len() == k,
                    forall|q: int| 0 <= q < k ==> summarizes(#[trigger] out@[q].0, ms[q].0) && out@[q].1@ == ms[q].1,
                decreases ms.len() - k,
            {
                proof {
                    assert(info_view(rest@[0].0) == ms[k + 0].0);
                }
                let (info, bytes) = rest.remove(0);
                let ghost iv = info_view(info);
                proof {
                    assert(iv == ms[k as int].0);
                }
                let (name_raw, decoded, size, crc32, compression, is_dir, version_made_by, unix_mode, extra, comment) = info;
                let name = match string_from_utf8(name_raw) {
                    Some(s) => s,
                    None => decoded,
                };
                let extra_data: Vec<u8> = match extra {
                    Some(d) => d,
                    None => Vec::new(),
                };
                let summary = package_file_summary(
                    name.as_str(),
                    size,
                    crc32,
                    compression,
                    is_dir,
                    version_made_by,
                    unix_mode,
                    extra_data.as_slice(),
                    comment,
                );
                out.push((summary, bytes));
                k += 1;
            }
            Ok((out, comment))
        },
    }
}

} // verus!
