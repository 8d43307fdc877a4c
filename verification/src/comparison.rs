//! Normalized comparison of two playlist packages.
use vstd::prelude::*;
use crate::document_compare::{compare_playlist_documents, document_issues};
use crate::member_compare::{compare_embedded_presentations, compare_media_assets, member_issues, member_listing};
use crate::package::{document_summaries, presentation_items, same_summaries, PlaylistItemSummary};
use crate::package_compare::{
    archive_issues, compare_archive_shape, compare_inferred_archive_shapes, compare_items, issue_views,
    item_comparison_issues, shape_issues, PlaylistPackageIssue,
};
use crate::package_model::{infer_archive_shape, shape_of, PlaylistArchiveShape, PlaylistPackage};

verus! {

/// Normalized comparison between two playlist packages.
#[derive(Debug)]
pub struct PlaylistPackageComparison {
    /// Expected/reference package path.
    pub expected_path: String,
    /// Actual/candidate package path.
    pub actual_path: String,
    /// Inferred archive shape for the expected package.
    pub expected_shape: PlaylistArchiveShape,
    /// Inferred archive shape for the actual package.
    pub actual_shape: PlaylistArchiveShape,
    /// Whether no comparison issues were found.
    pub compatible: bool,
    /// Human-readable comparison issues.
    pub issues: Vec<PlaylistPackageIssue>,
    /// Expected package presentation item count.
    pub expected_item_count: usize,
    /// Actual package presentation item count.
    pub actual_item_count: usize,
    /// Expected non-`data` archive entry count.
    pub expected_embedded_file_count: usize,
    /// Actual non-`data` archive entry count.
    pub actual_embedded_file_count: usize,
}

/// The schema issues: a side whose document does not re-encode to its
/// exact `data` bytes.
pub open spec fn schema_issues(expected_exact: bool, actual_exact: bool) -> Seq<(Seq<char>, Option<usize>, Seq<char>)> {
    (if expected_exact {
        Seq::empty()
    } else {
        seq![
            (
                "expected_playlist_schema_round_trip_loss"@,
                None,
                "reference playlist data is not byte-exact after decode and encode; the protobuf schema may be incomplete"@,
            ),
        ]
    }) + (if actual_exact {
        Seq::empty()
    } else {
        seq![
            (
                "actual_playlist_schema_round_trip_loss"@,
                None,
                "candidate playlist data is not byte-exact after decode and encode; the protobuf schema may be incomplete"@,
            ),
        ]
    })
}

/// The issues of comparing two packages given their presentation items, in
/// check order: inferred shapes, archive shape, schema coverage, document,
/// items, embedded presentations, media.
pub open spec fn package_issues(
    e: PlaylistPackage,
    a: PlaylistPackage,
    e_items: Seq<PlaylistItemSummary>,
    a_items: Seq<PlaylistItemSummary>,
) -> Seq<(Seq<char>, Option<usize>, Seq<char>)> {
    shape_issues(e.entries(), a.entries()) + archive_issues(e.entries(), a.entries(), e.comment(), a.comment())
        + schema_issues(e.round_trip(), a.round_trip()) + document_issues(e.doc(), a.doc())
        + item_comparison_issues(e_items, a_items) + member_issues(
        member_listing(e.entries(), a.entries(), true),
        e.entries(),
        a.entries(),
        true,
    ) + member_issues(member_listing(e.entries(), a.entries(), false), e.entries(), a.entries(), false)
}

fn push_schema_issue(issues: &mut Vec<PlaylistPackageIssue>, exact: bool, kind: &str, message: &str)
    ensures
        issue_views(final(issues)@) == issue_views(old(issues)@) + if exact {
            Seq::<(Seq<char>, Option<usize>, Seq<char>)>::empty()
        } else {
            seq![(kind@, None::<usize>, message@)]
        },
{
    if !exact {
        let ghost before = issues@;
        issues.push(PlaylistPackageIssue { kind: kind.to_string(), index: None, message: message.to_string() });
        proof {
            assert(issue_views(issues@) =~= issue_views(before) + seq![(kind@, None::<usize>, message@)]);
        }
    } else {
        proof {
            assert(issue_views(issues@) =~= issue_views(issues@) + Seq::<(Seq<char>, Option<usize>, Seq<char>)>::empty());
        }
    }
}

/// Compare two read playlist packages after normalizing volatile path
/// roots and identities. Embedded presentations are compared by their
/// member fingerprints.
pub fn compare_playlist_packages(
    expected: &PlaylistPackage,
    actual: &PlaylistPackage,
    expected_path: &str,
    actual_path: &str,
) -> (r: PlaylistPackageComparison)
    ensures
        r.expected_path@ == expected_path@,
        r.actual_path@ == actual_path@,
        r.expected_shape == shape_of(expected.entries()),
        r.actual_shape == shape_of(actual.entries()),
        r.expected_item_count == document_summaries(expected.doc()).len(),
        r.actual_item_count == document_summaries(actual.doc()).len(),
        r.expected_embedded_file_count == expected.stored().len(),
        r.actual_embedded_file_count == actual.stored().len(),
        r.compatible == (r.issues@.len() == 0),
        exists|ei: Seq<PlaylistItemSummary>, ai: Seq<PlaylistItemSummary>|
            {
                &&& same_summaries(ei, document_summaries(expected.doc()))
                &&& same_summaries(ai, document_summaries(actual.doc()))
                &&& #[trigger] issue_views(r.issues@) == package_issues(*expected, *actual, ei, ai)
            },
{
    let expected_items = presentation_items(expected.document());
    let actual_items = presentation_items(actual.document());
    let mut issues: Vec<PlaylistPackageIssue> = Vec::new();
    proof {
        assert(issue_views(issues@) =~= Seq::<(Seq<char>, Option<usize>, Seq<char>)>::empty());
    }
    compare_inferred_archive_shapes(expected, actual, &mut issues);
    compare_archive_shape(expected, actual, &mut issues);
    push_schema_issue(
        &mut issues,
        expected.document_round_trip_is_exact(),
        "expected_playlist_schema_round_trip_loss",
        "reference playlist data is not byte-exact after decode and encode; the protobuf schema may be incomplete",
    );
    push_schema_issue(
        &mut issues,
        actual.document_round_trip_is_exact(),
        "actual_playlist_schema_round_trip_loss",
        "candidate playlist data is not byte-exact after decode and encode; the protobuf schema may be incomplete",
    );
    compare_playlist_documents(expected.document(), actual.document(), &mut issues);
    compare_items(expected_items.as_slice(), actual_items.as_slice(), &mut issues);
    compare_embedded_presentations(expected, actual, &mut issues);
    compare_media_assets(expected, actual, &mut issues);
    proof {
        let v = issue_views(issues@);
        assert(v =~= package_issues(*expected, *actual, expected_items@, actual_items@));
    }
    let compatible = issues.len() == 0;
    PlaylistPackageComparison {
        expected_path: expected_path.to_string(),
        actual_path: actual_path.to_string(),
        expected_shape: infer_archive_shape(expected),
        actual_shape: infer_archive_shape(actual),
        compatible,
        issues,
        expected_item_count: expected_items.len(),
        actual_item_count: actual_items.len(),
        expected_embedded_file_count: expected.embedded_file_count(),
        actual_embedded_file_count: actual.embedded_file_count(),
    }
}

} // verus!
