//! The decoded contents of a `.proplaylist` package: its playlist
//! document, the raw `data` member, every other archive member by exact
//! name, and the archive's entry metadata in physical order.
use vstd::prelude::*;
use crate::document::PlaylistDocument;
use crate::native_url::{file_name, file_name_of, path_components, path_components_of};
use crate::naming::extension_of;
use crate::playlist::bytes_eq;
use crate::text::{chars_eq, chars_of, eq_ignore_ascii_case, string_of};

verus! {

/// The archive member that holds the playlist document.
pub open spec fn data_member() -> Seq<char> {
    "data"@
}

/// Metadata for one member of a `.proplaylist` package.
#[derive(Debug, PartialEq, Eq)]
pub struct PackageFileSummary {
    /// Archive entry name.
    pub name: String,
    /// Basename of the archive entry.
    pub basename: String,
    /// Uncompressed byte size.
    pub size: u64,
    /// Zip CRC32 of the uncompressed content.
    pub crc32: u32,
    /// Whether the archive entry looks like an embedded presentation.
    pub is_presentation: bool,
    /// ZIP compression method.
    pub compression_method: String,
    /// Whether the entry is a directory marker.
    pub is_directory: bool,
    /// ZIP creator version tuple.
    pub version_made_by: (u8, u8),
    /// Unix mode recorded in the central directory, when present.
    pub unix_mode: Option<u32>,
    /// Nonvolatile extra-field identifiers; extended timestamps are omitted.
    pub extra_field_ids: Vec<u16>,
    /// Per-entry ZIP comment.
    pub comment: String,
}

/// The inferred shape of an already-written package.
///
/// This is inspection data, not a write policy: a portable import holding
/// only basename `.pro` members has the same observable shape as a
/// library-local archive.
#[derive(Debug, Clone, Copy, PartialEq, Eq, Structural)]
pub enum PlaylistArchiveShape {
    /// No media or path-qualified members beyond presentations.
    PresentationsOnly,
    /// Media or path-qualified members associated with export.
    ContainsMedia,
}

/// Errors while assembling a package from its archive members.
#[derive(Debug, PartialEq, Eq)]
pub enum PackageError {
    /// The package did not contain the required `data` member.
    MissingData,
    /// The archive contained the same member name more than once.
    DuplicateArchiveEntry(String),
    /// The file is not a ZIP archive the `zip` crate can read; its message.
    Zip(String),
}

// ---------------------------------------------------------------------------
// Member metadata
// ---------------------------------------------------------------------------

/// The extended-timestamp extra field, whose modification time is volatile.
pub const EXTENDED_TIMESTAMP_ID: u16 = 0x5455;

/// The identifiers of the extra-field blocks of `data` (each a
/// little-endian identifier, a little-endian length and that many bytes),
/// stopping at a truncated block, without extended timestamps.
pub open spec fn extra_field_ids(data: Seq<u8>) -> Seq<u16>
    decreases data.len(),
{
    if data.len() < 4 {
        seq![]
    } else {
        let id = (data[0] + 256 * data[1]) as u16;
        let length = data[2] + 256 * data[3];
        let rest = data.skip(4);
        if rest.len() < length {
            seq![]
        } else {
            (if id != EXTENDED_TIMESTAMP_ID {
                seq![id]
            } else {
                seq![]
            }) + extra_field_ids(rest.skip(length))
        }
    }
}

/// The nonvolatile extra-field identifiers of a member.
pub fn nonvolatile_extra_field_ids(data: &[u8]) -> (ids: Vec<u16>)
    ensures
        ids@ == extra_field_ids(data@),
{
    let mut ids: Vec<u16> = Vec::new();
    let mut at: usize = 0;
    let mut done = false;
    proof {
        assert(data@.skip(0) =~= data@);
        assert(ids@ + extra_field_ids(data@.skip(0)) =~= extra_field_ids(data@));
    }
    while !done && data.len() - at >= 4
        invariant
            at <= data.len(),
            done ==> ids@ == extra_field_ids(data@),
            !done ==> ids@ + extra_field_ids(data@.skip(at as int)) == extra_field_ids(data@),
        decreases data.len() - at + if done {
            0int
        } else {
            1int
        },
    {
        let ghost rest0 = data@.skip(at as int);
        let id: u16 = data[at] as u16 + (data[at + 1] as u16) * 256;
        let length: usize = data[at + 2] as usize + (data[at + 3] as usize) * 256;
        proof {
            assert(rest0[0] == data@[at as int] && rest0[1] == data@[at + 1]);
            assert(rest0[2] == data@[at + 2] && rest0[3] == data@[at + 3]);
            assert(rest0.skip(4) =~= data@.skip(at + 4));
        }
        if data.len() - at - 4 < length {
            proof {
                assert(extra_field_ids(rest0) =~= Seq::<u16>::empty());
                assert(ids@ =~= ids@ + extra_field_ids(rest0));
            }
            done = true;
        } else {
            let ghost before = ids@;
            if id != EXTENDED_TIMESTAMP_ID {
                ids.push(id);
            }
            proof {
                assert(data@.skip(at + 4).skip(length as int) =~= data@.skip(at + 4 + length));
                assert(ids@ + extra_field_ids(data@.skip(at + 4 + length)) =~= before + extra_field_ids(
                    rest0,
                ));
            }
            at = at + 4 + length;
        }
    }
    proof {
        if !done {
            assert(extra_field_ids(data@.skip(at as int)) =~= Seq::<u16>::empty());
            assert(ids@ =~= ids@ + extra_field_ids(data@.skip(at as int)));
        }
    }
    ids
}

/// The basename of a member: its file name, or the whole name when it has
/// none.
pub open spec fn member_basename(name: Seq<char>) -> Seq<char> {
    match file_name_of(name) {
        Some(n) => n,
        None => name,
    }
}

/// Whether a basename names a presentation (`.pro`, ASCII case-insensitive).
pub open spec fn names_presentation(basename: Seq<char>) -> bool {
    match file_name_of(basename) {
        Some(n) => match extension_of(n) {
            Some(e) => eq_ignore_ascii_case(e, "pro"@),
            None => false,
        },
        None => false,
    }
}

fn is_pro_file(name: &[char]) -> (r: bool)
    ensures
        r == names_presentation(name@),
{
    match file_name(name) {
        Some(n) => crate::naming::extension_is_pro(n.as_slice()),
        None => false,
    }
}

/// Builds the metadata of one archive member from what the archive
/// records about it.
pub fn package_file_summary(
    name: &str,
    size: u64,
    crc32: u32,
    compression_method: String,
    is_directory: bool,
    version_made_by: (u8, u8),
    unix_mode: Option<u32>,
    extra_data: &[u8],
    comment: String,
) -> (s: PackageFileSummary)
    ensures
        s.name@ == name@,
        s.basename@ == member_basename(name@),
        s.is_presentation == names_presentation(member_basename(name@)),
        s.size == size,
        s.crc32 == crc32,
        s.compression_method == compression_method,
        s.is_directory == is_directory,
        s.version_made_by == version_made_by,
        s.unix_mode == unix_mode,
        s.extra_field_ids@ == extra_field_ids(extra_data@),
        s.comment == comment,
{
    let n = chars_of(name);
    let base = match file_name(n.as_slice()) {
        Some(b) => b,
        None => n,
    };
    let is_presentation = is_pro_file(base.as_slice());
    PackageFileSummary {
        name: name.to_string(),
        basename: string_of(base.as_slice()),
        size,
        crc32,
        is_presentation,
        compression_method,
        is_directory,
        version_made_by,
        unix_mode,
        extra_field_ids: nonvolatile_extra_field_ids(extra_data),
        comment,
    }
}

// ---------------------------------------------------------------------------
// The package
// ---------------------------------------------------------------------------

/// The names of a run of member summaries.
pub open spec fn entry_names(entries: Seq<PackageFileSummary>) -> Seq<Seq<char>> {
    entries.map_values(|e: PackageFileSummary| e.name@)
}

/// The members other than `data`, in archive order.
pub open spec fn embedded_entries(entries: Seq<PackageFileSummary>) -> Seq<PackageFileSummary>
    decreases entries.len(),
{
    if entries.len() == 0 {
        seq![]
    } else {
        embedded_entries(entries.drop_last()) + if entries.last().name@ != data_member() {
            seq![entries.last()]
        } else {
            Seq::<PackageFileSummary>::empty()
        }
    }
}

/// Member `k` repeats the name of an earlier member.
pub open spec fn repeats_member(names: Seq<Seq<char>>, k: int) -> bool {
    exists|i: int| 0 <= i < k && #[trigger] names[i] == names[k]
}

/// Every member name occurs once.
pub open spec fn unique_members(names: Seq<Seq<char>>) -> bool {
    forall|a: int, b: int| 0 <= a < b < names.len() ==> names[a] != names[b]
}

/// The bytes of the non-`data` members, in archive order.
pub open spec fn embedded_data(members: Seq<(PackageFileSummary, Vec<u8>)>) -> Seq<(Seq<char>, Seq<u8>)>
    decreases members.len(),
{
    if members.len() == 0 {
        seq![]
    } else {
        let m = members.last();
        embedded_data(members.drop_last()) + if m.0.name@ != data_member() {
            seq![(m.0.name@, m.1@)]
        } else {
            Seq::<(Seq<char>, Seq<u8>)>::empty()
        }
    }
}

/// The bytes of the `data` member, when there is one.
pub open spec fn data_bytes(members: Seq<(PackageFileSummary, Vec<u8>)>) -> Option<Seq<u8>>
    decreases members.len(),
{
    if members.len() == 0 {
        None
    } else if members.last().0.name@ == data_member() {
        Some(members.last().1@)
    } else {
        data_bytes(members.drop_last())
    }
}

/// The decoded contents of a `.proplaylist` package.
pub struct PlaylistPackage {
    document: PlaylistDocument,
    document_data: Vec<u8>,
    embedded: Vec<(String, Vec<u8>)>,
    archive_entries: Vec<PackageFileSummary>,
    archive_comment: Vec<u8>,
    round_trip_exact: bool,
}

/// The plain values of stored member bytes.
pub open spec fn stored_views(v: Seq<(String, Vec<u8>)>) -> Seq<(Seq<char>, Seq<u8>)> {
    v.map_values(|e: (String, Vec<u8>)| (e.0@, e.1@))
}

impl PlaylistPackage {
    /// Member names are unique and the stored bytes are those of the
    /// non-`data` members.
    #[verifier::type_invariant]
    spec fn members_consistent(self) -> bool {
        &&& unique_members(entry_names(self.archive_entries@))
        &&& entry_names(embedded_entries(self.archive_entries@)) == stored_views(self.embedded@).map_values(
            |e: (Seq<char>, Seq<u8>)| e.0,
        )
    }

    /// The decoded playlist document.
    pub closed spec fn doc(self) -> PlaylistDocument {
        self.document
    }

    /// The bytes of the `data` member.
    pub closed spec fn data(self) -> Seq<u8> {
        self.document_data@
    }

    /// Every member's metadata in physical order.
    pub closed spec fn entries(self) -> Seq<PackageFileSummary> {
        self.archive_entries@
    }

    /// The name and bytes of every non-`data` member, in archive order.
    pub closed spec fn stored(self) -> Seq<(Seq<char>, Seq<u8>)> {
        stored_views(self.embedded@)
    }

    /// The archive comment.
    pub closed spec fn comment(self) -> Seq<u8> {
        self.archive_comment@
    }

    /// Whether re-encoding the document reproduces the `data` bytes exactly.
    pub closed spec fn round_trip(self) -> bool {
        self.round_trip_exact
    }

    /// Record whether re-encoding the decoded document reproduced the
    /// `data` bytes exactly; a package is assembled as exact.
    pub fn with_document_round_trip(self, exact: bool) -> (r: Self)
        ensures
            r.round_trip() == exact,
            r.doc() == self.doc(),
            r.data() == self.data(),
            r.entries() == self.entries(),
            r.stored() == self.stored(),
            r.comment() == self.comment(),
    {
        proof {
            use_type_invariant(&self);
        }
        let PlaylistPackage { document, document_data, embedded, archive_entries, archive_comment, round_trip_exact: _ } = self;
        PlaylistPackage { document, document_data, embedded, archive_entries, archive_comment, round_trip_exact: exact }
    }

    /// Whether decoding and re-encoding reproduces the exact `data` bytes.
    pub fn document_round_trip_is_exact(&self) -> (r: bool)
        ensures
            r == self.round_trip(),
    {
        self.round_trip_exact
    }

    /// Assembles a package from its archive members in physical order, the
    /// document decoded from the `data` member and that document's
    /// re-encoding. Fails on the first member whose name repeats, then when
    /// there is no `data` member. The round trip is exact when the
    /// re-encoding equals the `data` bytes.
    pub fn new(
        document: PlaylistDocument,
        document_encoding: &[u8],
        members: Vec<(PackageFileSummary, Vec<u8>)>,
        archive_comment: Vec<u8>,
    ) -> (r: Result<Self, PackageError>)
        ensures
            ({
                let names = members@.map_values(|m: (PackageFileSummary, Vec<u8>)| m.0.name@);
                if exists|k: int| 0 <= k < names.len() && repeats_member(names, k) {
                    exists|k: int|
                        0 <= k < names.len() && repeats_member(names, k) && (forall|i: int|
                            0 <= i < k ==> !repeats_member(names, i)) && (r matches Err(
                            PackageError::DuplicateArchiveEntry(n),
                        ) && n@ == names[k])
                } else {
                    match data_bytes(members@) {
                        None => r == Err::<Self, PackageError>(PackageError::MissingData),
                        Some(d) => r matches Ok(p) && p.doc() == document && p.data() == d
                            && entry_names(p.entries()) == names && p.stored() == embedded_data(
                            members@,
                        ) && p.comment() == archive_comment@ && p.round_trip() == (document_encoding@ == d),
                    }
                }
            }),
    {
        let ghost names = members@.map_values(|m: (PackageFileSummary, Vec<u8>)| m.0.name@);
        let ghost all = members@;
        let mut entries: Vec<PackageFileSummary> = Vec::new();
        let mut embedded: Vec<(String, Vec<u8>)> = Vec::new();
        let mut data: Option<Vec<u8>> = None;
        let mut seen: Vec<Vec<char>> = Vec::new();
        let mut members = members;
        let mut k: usize = 0;
        let count = members.len();
        let mut failure: Option<String> = None;
        while members.len() > 0 && failure.is_none()
            invariant
                match failure {
                    Some(f) => k < names.len() && repeats_member(names, k as int) && f@ == names[k as int],
                    None => true,
                },
                failure is None ==> k + members.len() == count,
                k <= count,
                count == all.len(),
                names == all.map_values(|m: (PackageFileSummary, Vec<u8>)| m.0.name@),
                failure is None ==> members@ == all.skip(k as int),
                forall|x: int| 0 <= x < k ==> !repeats_member(names, x),
                entry_names(entries@) == names.take(k as int),
                seen@.map_values(|v: Vec<char>| v@) == names.take(k as int),
                seen.len() == k,
                stored_views(embedded@) == embedded_data(all.take(k as int)),
                entry_names(embedded_entries(entries@)) == stored_views(embedded@).map_values(
                    |e: (Seq<char>, Seq<u8>)| e.0,
                ),
                match data {
                    Some(d) => data_bytes(all.take(k as int)) == Some(d@),
                    None => data_bytes(all.take(k as int)) is None,
                },
            decreases members.len() + if failure is None {
                1int
            } else {
                0int
            },
        {
            let m = members.remove(0);
            let (summary, bytes) = m;
            proof {
                assert(all[k as int] == m);
                assert(members@ =~= all.skip(k + 1));
                assert(names[k as int] == summary.name@);
                assert(all.take(k + 1).drop_last() =~= all.take(k as int));
                assert(all.take(k + 1).last() == m);
            }
            let n = chars_of(summary.name.as_str());
            let mut q: usize = 0;
            let mut dup = false;
            while q < seen.len()
                invariant
                    q <= seen.len(),
                    k < names.len(),
                    seen.len() == k,
                    n@ == names[k as int],
                    seen@.map_values(|v: Vec<char>| v@) == names.take(k as int),
                    dup == exists|x: int| 0 <= x < q && #[trigger] names[x] == names[k as int],
                decreases seen.len() - q,
            {
                proof {
                    assert(seen@.map_values(|v: Vec<char>| v@)[q as int] == seen@[q as int]@);
                }
                proof {
                    assert(names.take(k as int)[q as int] == names[q as int]);
                }
                if chars_eq(seen[q].as_slice(), n.as_slice()) {
                    dup = true;
                }
                q += 1;
            }
            if dup {
                proof {
                    assert(repeats_member(names, k as int));
                }
                failure = Some(summary.name);
            } else {
                let is_data = chars_eq(n.as_slice(), chars_of("data").as_slice());
                let ghost old_entries = entries@;
                let ghost old_embedded = embedded@;
                let ghost old_seen = seen@;
                let ghost sm = summary;
                if is_data {
                    data = Some(bytes);
                    entries.push(summary);
                } else {
                    let name_copy = summary.name.clone();
                    entries.push(summary);
                    embedded.push((name_copy, bytes));
                }
                seen.push(n);
                proof {
                    assert(entries@ =~= old_entries.push(sm));
                    assert(sm.name@ == names[k as int]);
                    assert(names.take(k + 1) =~= names.take(k as int).push(names[k as int]));
                    assert(entry_names(entries@) =~= entry_names(old_entries).push(sm.name@));
                    assert(entry_names(entries@) =~= names.take(k + 1));
                    assert(entries@.drop_last() =~= old_entries);
                    assert(entries@.last() == sm);
                    if is_data {
                        assert(embedded_entries(entries@) =~= embedded_entries(old_entries));
                        assert(embedded@ == old_embedded);
                    } else {
                        assert(embedded_entries(entries@) =~= embedded_entries(old_entries).push(sm));
                        assert(stored_views(embedded@) =~= stored_views(old_embedded).push((sm.name@, all[k as int].1@)));
                        assert(stored_views(embedded@).map_values(|e: (Seq<char>, Seq<u8>)| e.0)
                            =~= stored_views(old_embedded).map_values(|e: (Seq<char>, Seq<u8>)| e.0).push(sm.name@));
                        assert(entry_names(embedded_entries(entries@)) =~= entry_names(embedded_entries(old_entries)).push(sm.name@));
                    }
                    assert(seen@.map_values(|v: Vec<char>| v@) =~= old_seen.map_values(|v: Vec<char>| v@).push(
                        names[k as int],
                    ));
                    assert(names.take(k + 1) =~= names.take(k as int).push(names[k as int]));
                    assert(entries@.drop_last() =~= old_entries);
                    assert(stored_views(embedded@) =~= embedded_data(all.take(k + 1)));
                    assert(entry_names(embedded_entries(entries@)) =~= stored_views(embedded@).map_values(
                        |e: (Seq<char>, Seq<u8>)| e.0,
                    ));
                }
                k += 1;
            }
        }
        if let Some(f) = failure {
            proof {
                assert(exists|kk: int| 0 <= kk < names.len() && repeats_member(names, kk));
            }
            return Err(PackageError::DuplicateArchiveEntry(f));
        }
        proof {
            assert(all.take(k as int) =~= all);
            assert(names.take(k as int) =~= names);
            assert forall|a: int, b: int| 0 <= a < b < names.len() implies names[a] != names[b] by {
                if names[a] == names[b] {
                    assert(repeats_member(names, b));
                }
            }
            assert(!exists|kk: int| 0 <= kk < names.len() && repeats_member(names, kk));
        }
        match data {
            None => Err(PackageError::MissingData),
            Some(document_data) => {
                let round_trip_exact = bytes_eq(document_encoding, document_data.as_slice());
                Ok(
                    PlaylistPackage {
                        document,
                        document_data,
                        embedded,
                        archive_entries: entries,
                        archive_comment,
                        round_trip_exact,
                    },
                )
            },
        }
    }

    /// The decoded playlist document from the `data` member.
    pub fn document(&self) -> (d: &PlaylistDocument)
        ensures
            *d == self.doc(),
    {
        &self.document
    }

    /// Consumes the package and returns its decoded document.
    pub fn into_document(self) -> (d: PlaylistDocument)
        ensures
            d == self.doc(),
    {
        self.document
    }

    /// The raw bytes of the `data` member.
    pub fn document_data(&self) -> (d: &[u8])
        ensures
            d@ == self.data(),
    {
        self.document_data.as_slice()
    }

    /// Metadata of the non-`data` members, in physical archive order.
    pub fn embedded_file_details(&self) -> (r: Vec<&PackageFileSummary>)
        ensures
            r@.map_values(|e: &PackageFileSummary| *e) == embedded_entries(self.entries()),
    {
        let mut r: Vec<&PackageFileSummary> = Vec::new();
        let mut k: usize = 0;
        while k < self.archive_entries.len()
            invariant
                k <= self.archive_entries.len(),
                r@.map_values(|e: &PackageFileSummary| *e) == embedded_entries(self.archive_entries@.take(k as int)),
            decreases self.archive_entries.len() - k,
        {
            let e = &self.archive_entries[k];
            let ghost before = r@;
            proof {
                assert(self.archive_entries@.take(k + 1).drop_last() =~= self.archive_entries@.take(k as int));
                assert(self.archive_entries@.take(k + 1).last() == *e);
            }
            if !chars_eq(chars_of(e.name.as_str()).as_slice(), chars_of("data").as_slice()) {
                r.push(e);
            }
            proof {
                assert(r@.map_values(|e: &PackageFileSummary| *e) =~= embedded_entries(
                    self.archive_entries@.take(k + 1),
                ));
            }
            k += 1;
        }
        proof {
            assert(self.archive_entries@.take(k as int) =~= self.archive_entries@);
        }
        r
    }

    /// Names of the non-`data` members, in physical archive order.
    pub fn embedded_files(&self) -> (r: Vec<&str>)
        ensures
            r@.map_values(|s: &str| s@) == entry_names(embedded_entries(self.entries())),
    {
        let details = self.embedded_file_details();
        let ghost dv = details@.map_values(|e: &PackageFileSummary| *e);
        let mut r: Vec<&str> = Vec::new();
        let mut k: usize = 0;
        while k < details.len()
            invariant
                k <= details.len(),
                dv == details@.map_values(|e: &PackageFileSummary| *e),
                r@.map_values(|s: &str| s@) == entry_names(dv.take(k as int)),
            decreases details.len() - k,
        {
            let ghost before = r@;
            r.push(details[k].name.as_str());
            proof {
                assert(dv[k as int] == *details@[k as int]);
                assert(dv.take(k + 1) =~= dv.take(k as int).push(dv[k as int]));
                assert(r@.map_values(|s: &str| s@) =~= before.map_values(|s: &str| s@).push(dv[k as int].name@));
                assert(r@.map_values(|s: &str| s@) =~= entry_names(dv.take(k + 1)));
            }
            k += 1;
        }
        proof {
            assert(dv.take(k as int) =~= dv);
        }
        r
    }

    /// The number of non-`data` members.
    pub fn embedded_file_count(&self) -> (n: usize)
        ensures
            n == self.stored().len(),
    {
        self.embedded.len()
    }

    /// The raw bytes of the non-`data` member named exactly `name`.
    pub fn embedded_file(&self, name: &str) -> (r: Option<&[u8]>)
        ensures
            match r {
                Some(b) => exists|k: int|
                    {
                        &&& 0 <= k < self.stored().len()
                        &&& #[trigger] self.stored()[k] == (name@, b@)
                        &&& forall|q: int| 0 <= q < k ==> (#[trigger] self.stored()[q]).0 != name@
                    },
                None => forall|k: int| 0 <= k < self.stored().len() ==> #[trigger] self.stored()[k].0 != name@,
            },
    {
        let want = chars_of(name);
        let ghost sv = stored_views(self.embedded@);
        let mut k: usize = 0;
        while k < self.embedded.len()
            invariant
                k <= self.embedded.len(),
                want@ == name@,
                sv == stored_views(self.embedded@),
                forall|q: int| 0 <= q < k ==> #[trigger] sv[q].0 != name@,
            decreases self.embedded.len() - k,
        {
            if chars_eq(chars_of(self.embedded[k].0.as_str()).as_slice(), want.as_slice()) {
                proof {
                    assert(sv[k as int] == (name@, self.embedded@[k as int].1@));
                    assert(self.stored()[k as int] == (name@, self.embedded@[k as int].1@));
                }
                return Some(self.embedded[k].1.as_slice());
            }
            k += 1;
        }
        None
    }

    /// Whether the package holds a non-`data` member named exactly `name`.
    pub fn has_embedded_file(&self, name: &str) -> (b: bool)
        ensures
            b == exists|k: int| 0 <= k < self.stored().len() && #[trigger] self.stored()[k].0 == name@,
    {
        match self.embedded_file(name) {
            Some(b) => {
                proof {
                    let k = choose|k: int| 0 <= k < self.stored().len() && #[trigger] self.stored()[k] == (name@, b@);
                    assert(self.stored()[k].0 == name@);
                }
                true
            },
            None => false,
        }
    }

    /// Every member's metadata in physical order, `data` included.
    pub fn archive_entries(&self) -> (r: &[PackageFileSummary])
        ensures
            r@ == self.entries(),
    {
        self.archive_entries.as_slice()
    }

    /// The raw ZIP archive comment.
    pub fn archive_comment(&self) -> (r: &[u8])
        ensures
            r@ == self.comment(),
    {
        self.archive_comment.as_slice()
    }
}

// ---------------------------------------------------------------------------
// Archive shape
// ---------------------------------------------------------------------------

/// A member name with a non-empty parent directory.
pub open spec fn has_parent_dir(name: Seq<char>) -> bool {
    path_components(name).len() >= 2
}

/// Whether a member is media or path-qualified.
pub open spec fn is_media_member(e: PackageFileSummary) -> bool {
    !e.is_presentation || has_parent_dir(e.name@)
}

/// Whether a package carries portable media or archive paths beyond
/// basename presentations.
pub open spec fn shape_of(entries: Seq<PackageFileSummary>) -> PlaylistArchiveShape {
    let embedded = embedded_entries(entries);
    if exists|k: int| 0 <= k < embedded.len() && is_media_member(#[trigger] embedded[k]) {
        PlaylistArchiveShape::ContainsMedia
    } else {
        PlaylistArchiveShape::PresentationsOnly
    }
}

/// Infers whether a package depends only on library presentations or also
/// carries portable media or archive paths.
pub fn infer_archive_shape(package: &PlaylistPackage) -> (s: PlaylistArchiveShape)
    ensures
        s == shape_of(package.entries()),
{
    let details = package.embedded_file_details();
    let ghost dv = details@.map_values(|e: &PackageFileSummary| *e);
    let mut k: usize = 0;
    while k < details.len()
        invariant
            k <= details.len(),
            dv == details@.map_values(|e: &PackageFileSummary| *e),
            dv == embedded_entries(package.entries()),
            forall|q: int| 0 <= q < k ==> !is_media_member(#[trigger] dv[q]),
        decreases details.len() - k,
    {
        let e = details[k];
        let parts = path_components_of(chars_of(e.name.as_str()).as_slice());
        proof {
            assert(dv[k as int] == *e);
            assert(parts@.map_values(|p: Vec<char>| p@).len() == parts.len());
        }
        if !e.is_presentation || parts.len() >= 2 {
            proof {
                assert(is_media_member(dv[k as int]));
            }
            return PlaylistArchiveShape::ContainsMedia;
        }
        k += 1;
    }
    PlaylistArchiveShape::PresentationsOnly
}

} // verus!
