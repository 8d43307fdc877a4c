//! Canonical resolution of native presentation identities and references.
//!
//! One graph answers every question about which cue, cue group,
//! arrangement or action a UUID names. Duplicate identities are kept, not
//! guessed away: a lookup reports them as ambiguous, with every position.
use vstd::prelude::*;
use crate::document::{Action, Arrangement, Cue, CueGroup, Presentation};
use crate::text::{
    char_seq_le, chars_eq, chars_le, chars_of, string_of, lemma_char_seq_le_antisym, lemma_char_seq_le_total,
    lemma_char_seq_le_trans, opt_view, vec_views,
};

verus! {

/// The exact result of resolving one native UUID reference.
#[derive(Debug, PartialEq, Eq)]
pub enum ReferenceResolution {
    /// No element carries the identity.
    Missing,
    /// Exactly one element carries it, at this position.
    Unique(usize),
    /// Several elements carry it, at these positions in document order.
    Ambiguous(Vec<usize>),
}

/// A cue/action location in document order.
#[derive(Clone, Copy, Debug, PartialEq, Eq)]
pub struct ActionIndex {
    /// Position of the cue.
    pub cue_index: usize,
    /// Position of the action within its cue.
    pub action_index: usize,
}

/// The result of resolving an action identity.
#[derive(Debug, PartialEq, Eq)]
pub enum ActionReferenceResolution {
    /// No action carries the identity.
    Missing,
    /// Exactly one action carries it.
    Unique(ActionIndex),
    /// Several actions carry it; the first in document order.
    Ambiguous {
        /// The first location.
        first: ActionIndex,
    },
}

// ---------------------------------------------------------------------------
// Identity lists
// ---------------------------------------------------------------------------

/// The identity of each cue.
pub open spec fn cue_ids(p: Presentation) -> Seq<Option<Seq<char>>> {
    p.cues@.map_values(|c: Cue| opt_view(c.uuid))
}

/// The identity of a cue group, read from its group metadata.
pub open spec fn cue_group_id(g: CueGroup) -> Option<Seq<char>> {
    match g.group {
        Some(gr) => opt_view(gr.uuid),
        None => None,
    }
}

/// The identity of each cue group.
pub open spec fn group_ids(p: Presentation) -> Seq<Option<Seq<char>>> {
    p.cue_groups@.map_values(|g: CueGroup| cue_group_id(g))
}

/// The identity of each arrangement.
pub open spec fn arrangement_ids(p: Presentation) -> Seq<Option<Seq<char>>> {
    p.arrangements@.map_values(|a: Arrangement| opt_view(a.uuid))
}

/// The identity of each action of a cue.
pub open spec fn action_ids(c: Cue) -> Seq<Option<Seq<char>>> {
    c.actions@.map_values(|a: Action| opt_view(a.uuid))
}

/// The positions below `n` whose identity is `u`, ascending.
pub open spec fn positions_with(ids: Seq<Option<Seq<char>>>, u: Seq<char>, n: int) -> Seq<usize>
    decreases n,
{
    if n <= 0 {
        seq![]
    } else {
        positions_with(ids, u, n - 1) + if ids[n - 1] == Some(u) {
            seq![(n - 1) as usize]
        } else {
            seq![]
        }
    }
}

/// Every position whose identity is `u`, ascending.
pub open spec fn all_positions_with(ids: Seq<Option<Seq<char>>>, u: Seq<char>) -> Seq<usize> {
    positions_with(ids, u, ids.len() as int)
}

/// Whether a resolution reports exactly the positions `found`.
pub open spec fn resolves_to(r: ReferenceResolution, found: Seq<usize>) -> bool {
    match r {
        ReferenceResolution::Missing => found.len() == 0,
        ReferenceResolution::Unique(i) => found == seq![i],
        ReferenceResolution::Ambiguous(v) => found.len() >= 2 && v@ == found,
    }
}

/// The locations of the actions with identity `u` among the first `n`
/// cues, cue by cue and in action order within a cue.
pub open spec fn action_locations(cues: Seq<Cue>, u: Seq<char>, n: int) -> Seq<ActionIndex>
    decreases n,
{
    if n <= 0 {
        seq![]
    } else {
        let c = cues[n - 1];
        action_locations(cues, u, n - 1) + all_positions_with(action_ids(c), u).map_values(
            |j: usize| ActionIndex { cue_index: (n - 1) as usize, action_index: j },
        )
    }
}

/// Whether an action resolution matches the locations `found`.
pub open spec fn action_resolves_to(r: ActionReferenceResolution, found: Seq<ActionIndex>) -> bool {
    match r {
        ActionReferenceResolution::Missing => found.len() == 0,
        ActionReferenceResolution::Unique(l) => found == seq![l],
        ActionReferenceResolution::Ambiguous { first } => found.len() >= 2 && found[0] == first,
    }
}

/// The character view of an optional identity.
pub open spec fn id_view(o: Option<Vec<char>>) -> Option<Seq<char>> {
    match o {
        Some(v) => Some(v@),
        None => None,
    }
}

/// The views of a run of optional identities.
pub open spec fn id_views(ids: Seq<Option<Vec<char>>>) -> Seq<Option<Seq<char>>> {
    ids.map_values(|o: Option<Vec<char>>| id_view(o))
}

fn id_of(o: &Option<String>) -> (r: Option<Vec<char>>)
    ensures
        id_view(r) == opt_view(*o),
{
    match o {
        Some(s) => Some(chars_of(s.as_str())),
        None => None,
    }
}

fn cue_id_list(cues: &Vec<Cue>) -> (r: Vec<Option<Vec<char>>>)
    ensures
        id_views(r@) == cues@.map_values(|c: Cue| opt_view(c.uuid)),
{
    let mut r: Vec<Option<Vec<char>>> = Vec::new();
    let mut i: usize = 0;
    while i < cues.len()
        invariant
            i <= cues.len(),
            id_views(r@) == cues@.map_values(|c: Cue| opt_view(c.uuid)).take(i as int),
        decreases cues.len() - i,
    {
        let ghost before = r@;
        let id = id_of(&cues[i].uuid);
        r.push(id);
        proof {
            assert(id_views(r@) =~= id_views(before).push(id_view(id)));
            assert(cues@.map_values(|c: Cue| opt_view(c.uuid)).take(i + 1) =~= cues@.map_values(
                |c: Cue| opt_view(c.uuid),
            ).take(i as int).push(opt_view(cues@[i as int].uuid)));
        }
        i += 1;
    }
    proof {
        assert(cues@.map_values(|c: Cue| opt_view(c.uuid)).take(i as int) =~= cues@.map_values(
            |c: Cue| opt_view(c.uuid),
        ));
    }
    r
}

fn action_id_list(actions: &Vec<Action>) -> (r: Vec<Option<Vec<char>>>)
    ensures
        id_views(r@) == actions@.map_values(|a: Action| opt_view(a.uuid)),
{
    let mut r: Vec<Option<Vec<char>>> = Vec::new();
    let mut i: usize = 0;
    while i < actions.len()
        invariant
            i <= actions.len(),
            id_views(r@) == actions@.map_values(|a: Action| opt_view(a.uuid)).take(i as int),
        decreases actions.len() - i,
    {
        let ghost before = r@;
        let id = id_of(&actions[i].uuid);
        r.push(id);
        proof {
            assert(id_views(r@) =~= id_views(before).push(id_view(id)));
            assert(actions@.map_values(|a: Action| opt_view(a.uuid)).take(i + 1)
                =~= actions@.map_values(|a: Action| opt_view(a.uuid)).take(i as int).push(
                opt_view(actions@[i as int].uuid),
            ));
        }
        i += 1;
    }
    proof {
        assert(actions@.map_values(|a: Action| opt_view(a.uuid)).take(i as int)
            =~= actions@.map_values(|a: Action| opt_view(a.uuid)));
    }
    r
}

fn group_id_list(groups: &Vec<CueGroup>) -> (r: Vec<Option<Vec<char>>>)
    ensures
        id_views(r@) == groups@.map_values(|g: CueGroup| cue_group_id(g)),
{
    let mut r: Vec<Option<Vec<char>>> = Vec::new();
    let mut i: usize = 0;
    while i < groups.len()
        invariant
            i <= groups.len(),
            id_views(r@) == groups@.map_values(|g: CueGroup| cue_group_id(g)).take(i as int),
        decreases groups.len() - i,
    {
        let ghost before = r@;
        let id = match &groups[i].group {
            Some(g) => id_of(&g.uuid),
            None => None,
        };
        r.push(id);
        proof {
            assert(id_views(r@) =~= id_views(before).push(id_view(id)));
            assert(groups@.map_values(|g: CueGroup| cue_group_id(g)).take(i + 1)
                =~= groups@.map_values(|g: CueGroup| cue_group_id(g)).take(i as int).push(
                cue_group_id(groups@[i as int]),
            ));
        }
        i += 1;
    }
    proof {
        assert(groups@.map_values(|g: CueGroup| cue_group_id(g)).take(i as int)
            =~= groups@.map_values(|g: CueGroup| cue_group_id(g)));
    }
    r
}

fn arrangement_id_list(arrangements: &Vec<Arrangement>) -> (r: Vec<Option<Vec<char>>>)
    ensures
        id_views(r@) == arrangements@.map_values(|a: Arrangement| opt_view(a.uuid)),
{
    let mut r: Vec<Option<Vec<char>>> = Vec::new();
    let mut i: usize = 0;
    while i < arrangements.len()
        invariant
            i <= arrangements.len(),
            id_views(r@) == arrangements@.map_values(|a: Arrangement| opt_view(a.uuid)).take(
                i as int,
            ),
        decreases arrangements.len() - i,
    {
        let ghost before = r@;
        let id = id_of(&arrangements[i].uuid);
        r.push(id);
        proof {
            assert(id_views(r@) =~= id_views(before).push(id_view(id)));
            assert(arrangements@.map_values(|a: Arrangement| opt_view(a.uuid)).take(i + 1)
                =~= arrangements@.map_values(|a: Arrangement| opt_view(a.uuid)).take(
                i as int,
            ).push(opt_view(arrangements@[i as int].uuid)));
        }
        i += 1;
    }
    proof {
        assert(arrangements@.map_values(|a: Arrangement| opt_view(a.uuid)).take(i as int)
            =~= arrangements@.map_values(|a: Arrangement| opt_view(a.uuid)));
    }
    r
}

fn positions_of(ids: &Vec<Option<Vec<char>>>, u: &[char]) -> (r: Vec<usize>)
    ensures
        r@ == all_positions_with(id_views(ids@), u@),
{
    let ghost iv = id_views(ids@);
    let mut r: Vec<usize> = Vec::new();
    let mut i: usize = 0;
    while i < ids.len()
        invariant
            i <= ids.len(),
            iv == id_views(ids@),
            r@ == positions_with(iv, u@, i as int),
        decreases ids.len() - i,
    {
        let hit = match &ids[i] {
            Some(v) => chars_eq(v.as_slice(), u),
            None => false,
        };
        let ghost before = r@;
        if hit {
            r.push(i);
        }
        proof {
            assert(iv[i as int] == id_view(ids@[i as int]));
            assert(r@ =~= positions_with(iv, u@, i + 1));
        }
        i += 1;
    }
    r
}

fn resolve(ids: &Vec<Option<Vec<char>>>, u: &[char]) -> (r: ReferenceResolution)
    ensures
        resolves_to(r, all_positions_with(id_views(ids@), u@)),
{
    let found = positions_of(ids, u);
    if found.len() == 0 {
        ReferenceResolution::Missing
    } else if found.len() == 1 {
        proof {
            assert(found@ =~= seq![found@[0]]);
        }
        ReferenceResolution::Unique(found[0])
    } else {
        ReferenceResolution::Ambiguous(found)
    }
}

// ---------------------------------------------------------------------------
// The graph
// ---------------------------------------------------------------------------

/// One owner for all document-level native identity indexes.
///
/// Inspection, traversal and validation query this graph instead of
/// interpreting UUID strings each on their own. Ambiguous identities are
/// retained: inspection can report them while mutation rejects them through
/// the same resolution result.
pub struct ResolvedPresentationGraph<'a> {
    presentation: &'a Presentation,
    cues: Vec<Option<Vec<char>>>,
    groups: Vec<Option<Vec<char>>>,
    arrangements: Vec<Option<Vec<char>>>,
}

impl<'a> ResolvedPresentationGraph<'a> {
    /// The indexes hold the identities of the presentation's elements.
    #[verifier::type_invariant]
    spec fn indexes_match(self) -> bool {
        &&& id_views(self.cues@) == cue_ids(*self.presentation)
        &&& id_views(self.groups@) == group_ids(*self.presentation)
        &&& id_views(self.arrangements@) == arrangement_ids(*self.presentation)
    }

    /// The presentation the graph indexes.
    pub closed spec fn source(self) -> Presentation {
        *self.presentation
    }

    /// Indexes every identity of `presentation`.
    pub fn new(presentation: &'a Presentation) -> (g: Self)
        ensures
            g.source() == *presentation,
    {
        let cues = cue_id_list(&presentation.cues);
        let groups = group_id_list(&presentation.cue_groups);
        let arrangements = arrangement_id_list(&presentation.arrangements);
        ResolvedPresentationGraph { presentation, cues, groups, arrangements }
    }

    /// The indexed presentation.
    pub fn presentation(&self) -> (p: &'a Presentation)
        ensures
            *p == self.source(),
    {
        self.presentation
    }

    /// Resolves a cue identity.
    pub fn cue(&self, uuid: &str) -> (r: ReferenceResolution)
        ensures
            resolves_to(r, all_positions_with(cue_ids(self.source()), uuid@)),
    {
        proof {
            use_type_invariant(self);
        }
        let u = chars_of(uuid);
        resolve(&self.cues, u.as_slice())
    }

    /// Resolves a cue-group identity.
    pub fn group(&self, uuid: &str) -> (r: ReferenceResolution)
        ensures
            resolves_to(r, all_positions_with(group_ids(self.source()), uuid@)),
    {
        proof {
            use_type_invariant(self);
        }
        let u = chars_of(uuid);
        resolve(&self.groups, u.as_slice())
    }

    /// Resolves an arrangement identity.
    pub fn arrangement(&self, uuid: &str) -> (r: ReferenceResolution)
        ensures
            resolves_to(r, all_positions_with(arrangement_ids(self.source()), uuid@)),
    {
        proof {
            use_type_invariant(self);
        }
        let u = chars_of(uuid);
        resolve(&self.arrangements, u.as_slice())
    }

    /// Resolves an action identity across every cue.
    pub fn action(&self, uuid: &str) -> (r: ActionReferenceResolution)
        ensures
            action_resolves_to(
                r,
                action_locations(self.source().cues@, uuid@, self.source().cues@.len() as int),
            ),
    {
        let u = chars_of(uuid);
        let cues = &self.presentation.cues;
        let ghost cs = cues@;
        let mut found: Vec<ActionIndex> = Vec::new();
        let mut i: usize = 0;
        while i < cues.len()
            invariant
                i <= cues.len(),
                cs == cues@,
                u@ == uuid@,
                found@ == action_locations(cs, u@, i as int),
            decreases cues.len() - i,
        {
            let ids = action_id_list(&cues[i].actions);
            let hits = positions_of(&ids, u.as_slice());
            let ghost before = found@;
            let mut k: usize = 0;
            while k < hits.len()
                invariant
                    k <= hits.len(),
                    found@ == before + hits@.take(k as int).map_values(
                        |j: usize| ActionIndex { cue_index: i, action_index: j },
                    ),
                decreases hits.len() - k,
            {
                found.push(ActionIndex { cue_index: i, action_index: hits[k] });
                k += 1;
                proof {
                    assert(found@ =~= before + hits@.take(k as int).map_values(
                        |j: usize| ActionIndex { cue_index: i, action_index: j },
                    ));
                }
            }
            proof {
                assert(hits@.take(k as int) =~= hits@);
                assert(found@ =~= action_locations(cs, u@, i + 1));
            }
            i += 1;
        }
        if found.len() == 0 {
            ActionReferenceResolution::Missing
        } else if found.len() == 1 {
            proof {
                assert(found@ =~= seq![found@[0]]);
            }
            ActionReferenceResolution::Unique(found[0])
        } else {
            ActionReferenceResolution::Ambiguous { first: found[0] }
        }
    }
}


// ---------------------------------------------------------------------------
// Reference diagnostics
// ---------------------------------------------------------------------------

/// A structural problem with a presentation's identities or references.
#[derive(Debug, PartialEq, Eq)]
pub enum PresentationReferenceDiagnostic {
    /// Several cues carry one identity.
    DuplicateCueUuid {
        /// The identity.
        uuid: String,
        /// The cues carrying it.
        cue_indexes: Vec<usize>,
    },
    /// Several cue groups carry one identity.
    DuplicateCueGroupUuid {
        /// The identity.
        uuid: String,
        /// The cue groups carrying it.
        cue_group_indexes: Vec<usize>,
    },
    /// Several arrangements carry one identity.
    DuplicateArrangementUuid {
        /// The identity.
        uuid: String,
        /// The arrangements carrying it.
        arrangement_indexes: Vec<usize>,
    },
    /// The selected arrangement names no arrangement.
    DanglingSelectedArrangement {
        /// The selected identity.
        uuid: String,
    },
    /// The selected arrangement names several arrangements.
    AmbiguousSelectedArrangement {
        /// The selected identity.
        uuid: String,
        /// The arrangements carrying it.
        arrangement_indexes: Vec<usize>,
    },
    /// A cue group references a cue that does not exist.
    DanglingCueReference {
        /// The cue group.
        cue_group_index: usize,
        /// The reference within the group.
        reference_index: usize,
        /// The referenced identity.
        uuid: String,
    },
    /// A cue group references an identity that several cues carry.
    AmbiguousCueReference {
        /// The cue group.
        cue_group_index: usize,
        /// The reference within the group.
        reference_index: usize,
        /// The referenced identity.
        uuid: String,
        /// The cues carrying it.
        cue_indexes: Vec<usize>,
    },
    /// An arrangement references a cue group that does not exist.
    DanglingGroupReference {
        /// The arrangement.
        arrangement_index: usize,
        /// The reference within the arrangement.
        reference_index: usize,
        /// The referenced identity.
        uuid: String,
    },
    /// An arrangement references an identity that several cue groups carry.
    AmbiguousGroupReference {
        /// The arrangement.
        arrangement_index: usize,
        /// The reference within the arrangement.
        reference_index: usize,
        /// The referenced identity.
        uuid: String,
        /// The cue groups carrying it.
        cue_group_indexes: Vec<usize>,
    },
}

/// The variant of a reference diagnostic.
#[derive(Clone, Copy, Debug, PartialEq, Eq)]
pub enum DiagnosticKind {
    /// `DuplicateCueUuid`.
    DuplicateCue,
    /// `DuplicateCueGroupUuid`.
    DuplicateCueGroup,
    /// `DuplicateArrangementUuid`.
    DuplicateArrangement,
    /// `DanglingSelectedArrangement`.
    DanglingSelected,
    /// `AmbiguousSelectedArrangement`.
    AmbiguousSelected,
    /// `DanglingCueReference`.
    DanglingCue,
    /// `AmbiguousCueReference`.
    AmbiguousCue,
    /// `DanglingGroupReference`.
    DanglingGroup,
    /// `AmbiguousGroupReference`.
    AmbiguousGroup,
}

/// A diagnostic as plain values: its variant, identity, owner position,
/// reference position and the positions carrying the identity (absent
/// positions read as zero, absent position lists as empty).
impl View for PresentationReferenceDiagnostic {
    type V = (DiagnosticKind, Seq<char>, usize, usize, Seq<usize>);

    open spec fn view(&self) -> Self::V {
        match self {
            PresentationReferenceDiagnostic::DuplicateCueUuid { uuid, cue_indexes } => (
                DiagnosticKind::DuplicateCue,
                uuid@,
                0,
                0,
                cue_indexes@,
            ),
            PresentationReferenceDiagnostic::DuplicateCueGroupUuid { uuid, cue_group_indexes } => (
                DiagnosticKind::DuplicateCueGroup,
                uuid@,
                0,
                0,
                cue_group_indexes@,
            ),
            PresentationReferenceDiagnostic::DuplicateArrangementUuid {
                uuid,
                arrangement_indexes,
            } => (DiagnosticKind::DuplicateArrangement, uuid@, 0, 0, arrangement_indexes@),
            PresentationReferenceDiagnostic::DanglingSelectedArrangement { uuid } => (
                DiagnosticKind::DanglingSelected,
                uuid@,
                0,
                0,
                seq![],
            ),
            PresentationReferenceDiagnostic::AmbiguousSelectedArrangement {
                uuid,
                arrangement_indexes,
            } => (DiagnosticKind::AmbiguousSelected, uuid@, 0, 0, arrangement_indexes@),
            PresentationReferenceDiagnostic::DanglingCueReference {
                cue_group_index,
                reference_index,
                uuid,
            } => (DiagnosticKind::DanglingCue, uuid@, *cue_group_index, *reference_index, seq![]),
            PresentationReferenceDiagnostic::AmbiguousCueReference {
                cue_group_index,
                reference_index,
                uuid,
                cue_indexes,
            } => (
                DiagnosticKind::AmbiguousCue,
                uuid@,
                *cue_group_index,
                *reference_index,
                cue_indexes@,
            ),
            PresentationReferenceDiagnostic::DanglingGroupReference {
                arrangement_index,
                reference_index,
                uuid,
            } => (DiagnosticKind::DanglingGroup, uuid@, *arrangement_index, *reference_index, seq![]),
            PresentationReferenceDiagnostic::AmbiguousGroupReference {
                arrangement_index,
                reference_index,
                uuid,
                cue_group_indexes,
            } => (
                DiagnosticKind::AmbiguousGroup,
                uuid@,
                *arrangement_index,
                *reference_index,
                cue_group_indexes@,
            ),
        }
    }
}

/// The views of a run of diagnostics.
pub open spec fn diagnostic_views(d: Seq<PresentationReferenceDiagnostic>) -> Seq<
    <PresentationReferenceDiagnostic as View>::V,
> {
    d.map_values(|x: PresentationReferenceDiagnostic| x@)
}

/// Strictly ascending by code point order.
pub open spec fn strictly_ascending(d: Seq<Seq<char>>) -> bool {
    forall|x: int, y: int|
        #![trigger d[x], d[y]]
        0 <= x < y < d.len() ==> char_seq_le(d[x], d[y]) && d[x] != d[y]
}

/// `d` lists, in ascending order, every identity that two or more
/// positions of `ids` carry.
pub open spec fn is_duplicate_listing(ids: Seq<Option<Seq<char>>>, d: Seq<Seq<char>>) -> bool {
    &&& strictly_ascending(d)
    &&& forall|u: Seq<char>|
        #![trigger d.contains(u)]
        #![trigger all_positions_with(ids, u)]
        d.contains(u) <==> all_positions_with(ids, u).len() >= 2
}

/// The identities carried more than once, ascending.
pub open spec fn duplicate_ids(ids: Seq<Option<Seq<char>>>) -> Seq<Seq<char>> {
    choose|d: Seq<Seq<char>>| is_duplicate_listing(ids, d)
}

/// The duplicate-identity diagnostics of one element kind.
pub open spec fn duplicate_diagnostics(kind: DiagnosticKind, ids: Seq<Option<Seq<char>>>) -> Seq<
    <PresentationReferenceDiagnostic as View>::V,
> {
    duplicate_ids(ids).map_values(
        |u: Seq<char>| (kind, u, 0usize, 0usize, all_positions_with(ids, u)),
    )
}

/// The diagnostic for one reference to `u` among `ids`: dangling when no
/// position carries it, ambiguous when several do.
pub open spec fn reference_diagnostic(
    dangling: DiagnosticKind,
    ambiguous: DiagnosticKind,
    ids: Seq<Option<Seq<char>>>,
    u: Seq<char>,
    owner: usize,
    at: usize,
) -> Seq<<PresentationReferenceDiagnostic as View>::V> {
    let found = all_positions_with(ids, u);
    if found.len() == 0 {
        seq![(dangling, u, owner, at, Seq::<usize>::empty())]
    } else if found.len() >= 2 {
        seq![(ambiguous, u, owner, at, found)]
    } else {
        seq![]
    }
}

/// The diagnostics of the first `n` references of one owner.
pub open spec fn references_diagnostics(
    dangling: DiagnosticKind,
    ambiguous: DiagnosticKind,
    ids: Seq<Option<Seq<char>>>,
    refs: Seq<String>,
    owner: usize,
    n: int,
) -> Seq<<PresentationReferenceDiagnostic as View>::V>
    decreases n,
{
    if n <= 0 {
        seq![]
    } else {
        references_diagnostics(dangling, ambiguous, ids, refs, owner, n - 1) + reference_diagnostic(
            dangling,
            ambiguous,
            ids,
            refs[n - 1]@,
            owner,
            (n - 1) as usize,
        )
    }
}

/// The cue-reference diagnostics of the first `n` cue groups.
pub open spec fn cue_reference_diagnostics(p: Presentation, n: int) -> Seq<
    <PresentationReferenceDiagnostic as View>::V,
>
    decreases n,
{
    if n <= 0 {
        seq![]
    } else {
        let refs = p.cue_groups@[n - 1].cue_identifiers@;
        cue_reference_diagnostics(p, n - 1) + references_diagnostics(
            DiagnosticKind::DanglingCue,
            DiagnosticKind::AmbiguousCue,
            cue_ids(p),
            refs,
            (n - 1) as usize,
            refs.len() as int,
        )
    }
}

/// The group-reference diagnostics of the first `n` arrangements.
pub open spec fn group_reference_diagnostics(p: Presentation, n: int) -> Seq<
    <PresentationReferenceDiagnostic as View>::V,
>
    decreases n,
{
    if n <= 0 {
        seq![]
    } else {
        let refs = p.arrangements@[n - 1].group_identifiers@;
        group_reference_diagnostics(p, n - 1) + references_diagnostics(
            DiagnosticKind::DanglingGroup,
            DiagnosticKind::AmbiguousGroup,
            group_ids(p),
            refs,
            (n - 1) as usize,
            refs.len() as int,
        )
    }
}

/// The diagnostic of the selected arrangement, if any.
pub open spec fn selection_diagnostics(p: Presentation) -> Seq<<PresentationReferenceDiagnostic as View>::V> {
    match p.selected_arrangement {
        Some(s) => reference_diagnostic(
            DiagnosticKind::DanglingSelected,
            DiagnosticKind::AmbiguousSelected,
            arrangement_ids(p),
            s@,
            0,
            0,
        ),
        None => seq![],
    }
}

/// Every reference diagnostic of a presentation, in report order:
/// duplicate cue, cue-group and arrangement identities (each ascending by
/// identity), the selected arrangement, cue references of each cue group,
/// then group references of each arrangement.
pub open spec fn presentation_diagnostics(p: Presentation) -> Seq<<PresentationReferenceDiagnostic as View>::V> {
    duplicate_diagnostics(DiagnosticKind::DuplicateCue, cue_ids(p)) + duplicate_diagnostics(
        DiagnosticKind::DuplicateCueGroup,
        group_ids(p),
    ) + duplicate_diagnostics(DiagnosticKind::DuplicateArrangement, arrangement_ids(p))
        + selection_diagnostics(p) + cue_reference_diagnostics(p, p.cue_groups@.len() as int)
        + group_reference_diagnostics(p, p.arrangements@.len() as int)
}

pub(crate) proof fn lemma_strictly_ascending_unique(d1: Seq<Seq<char>>, d2: Seq<Seq<char>>)
    requires
        strictly_ascending(d1),
        strictly_ascending(d2),
        forall|u: Seq<char>| d1.contains(u) <==> d2.contains(u),
    ensures
        d1 == d2,
    decreases d1.len(),
{
    if d1.len() == 0 {
        if d2.len() > 0 {
            assert(d2.contains(d2[0]));
        }
        assert(d1 =~= d2);
    } else {
        assert(d1.contains(d1[0]));
        assert(d2.len() > 0);
        assert(d2.contains(d2[0]));
        let a = d1[0];
        let b = d2[0];
        let xb = choose|x: int| 0 <= x < d1.len() && d1[x] == b;
        if xb > 0 {
            assert(char_seq_le(d1[0], d1[xb]));
        } else {
            lemma_char_seq_le_refl_local(a);
        }
        let xa = choose|x: int| 0 <= x < d2.len() && d2[x] == a;
        if xa > 0 {
            assert(char_seq_le(d2[0], d2[xa]));
        } else {
            lemma_char_seq_le_refl_local(b);
        }
        lemma_char_seq_le_antisym(a, b);
        let r1 = d1.drop_first();
        let r2 = d2.drop_first();
        assert forall|u: Seq<char>| r1.contains(u) <==> r2.contains(u) by {
            if r1.contains(u) {
                let x = choose|x: int| 0 <= x < r1.len() && r1[x] == u;
                assert(d1[x + 1] == u);
                assert(d1[0] != d1[x + 1]);
                assert(d1.contains(u));
                let y = choose|y: int| 0 <= y < d2.len() && d2[y] == u;
                assert(y != 0);
                assert(r2[y - 1] == u);
            }
            if r2.contains(u) {
                let x = choose|x: int| 0 <= x < r2.len() && r2[x] == u;
                assert(d2[x + 1] == u);
                assert(d2[0] != d2[x + 1]);
                assert(d2.contains(u));
                let y = choose|y: int| 0 <= y < d1.len() && d1[y] == u;
                assert(y != 0);
                assert(r1[y - 1] == u);
            }
        }
        assert(strictly_ascending(r1)) by {
            assert forall|x: int, y: int| 0 <= x < y < r1.len() implies char_seq_le(r1[x], r1[y])
                && r1[x] != r1[y] by {
                assert(r1[x] == d1[x + 1] && r1[y] == d1[y + 1]);
            }
        }
        assert(strictly_ascending(r2)) by {
            assert forall|x: int, y: int| 0 <= x < y < r2.len() implies char_seq_le(r2[x], r2[y])
                && r2[x] != r2[y] by {
                assert(r2[x] == d2[x + 1] && r2[y] == d2[y + 1]);
            }
        }
        lemma_strictly_ascending_unique(r1, r2);
        assert(d1 =~= seq![a] + r1);
        assert(d2 =~= seq![b] + r2);
    }
}

proof fn lemma_char_seq_le_refl_local(a: Seq<char>)
    ensures
        char_seq_le(a, a),
{
    crate::text::lemma_char_seq_le_refl(a);
}

proof fn lemma_positions_with_members(ids: Seq<Option<Seq<char>>>, u: Seq<char>, n: int)
    requires
        0 <= n <= ids.len() <= usize::MAX,
    ensures
        forall|x: int|
            0 <= x < positions_with(ids, u, n).len() ==> #[trigger] positions_with(ids, u, n)[x] < n
                && ids[positions_with(ids, u, n)[x] as int] == Some(u),
    decreases n,
{
    if n > 0 {
        lemma_positions_with_members(ids, u, n - 1);
        let prev = positions_with(ids, u, n - 1);
        let cur = positions_with(ids, u, n);
        assert forall|x: int| 0 <= x < cur.len() implies #[trigger] cur[x] < n && ids[cur[x] as int]
            == Some(u) by {
            if x < prev.len() {
                assert(cur[x] == prev[x]);
            }
        }
    }
}

proof fn lemma_positions_with_grows(ids: Seq<Option<Seq<char>>>, u: Seq<char>, a: int, b: int)
    requires
        0 <= a <= b <= ids.len(),
    ensures
        positions_with(ids, u, a).len() <= positions_with(ids, u, b).len(),
    decreases b - a,
{
    if a < b {
        lemma_positions_with_grows(ids, u, a, b - 1);
    }
}

/// Inserts `k` into the strictly ascending `d`, where it does not occur.
pub(crate) fn insert_ascending(d: &mut Vec<Vec<char>>, k: Vec<char>)
    requires
        strictly_ascending(vec_views(old(d)@)),
        !vec_views(old(d)@).contains(k@),
    ensures
        strictly_ascending(vec_views(final(d)@)),
        forall|u: Seq<char>|
            #![trigger vec_views(final(d)@).contains(u)]
            vec_views(final(d)@).contains(u) <==> (vec_views(old(d)@).contains(u) || u == k@),
{
    let ghost dv = vec_views(d@);
    let mut p: usize = 0;
    while p < d.len() && !chars_le(k.as_slice(), d[p].as_slice())
        invariant
            p <= d.len(),
            dv == vec_views(d@),
            forall|x: int| 0 <= x < p ==> !char_seq_le(k@, #[trigger] dv[x]),
        decreases d.len() - p,
    {
        p += 1;
    }
    let ghost kk = k@;
    d.insert(p, k);
    proof {
        let nv = vec_views(d@);
        assert(nv =~= dv.insert(p as int, kk));
        assert forall|x: int, y: int| 0 <= x < y < nv.len() implies char_seq_le(nv[x], nv[y]) && nv[x]
            != nv[y] by {
            if y < p {
                assert(nv[x] == dv[x] && nv[y] == dv[y]);
            } else if y == p {
                assert(nv[x] == dv[x]);
                lemma_char_seq_le_total(kk, dv[x]);
                assert(dv.contains(dv[x]));
            } else if x > p {
                assert(nv[x] == dv[x - 1] && nv[y] == dv[y - 1]);
            } else if x == p {
                assert(nv[y] == dv[y - 1]);
                assert(char_seq_le(kk, dv[p as int]));
                if y - 1 > p {
                    assert(char_seq_le(dv[p as int], dv[y - 1]));
                    lemma_char_seq_le_trans(kk, dv[p as int], dv[y - 1]);
                }
                assert(dv.contains(dv[y - 1]));
            } else {
                assert(nv[x] == dv[x] && nv[y] == dv[y - 1]);
            }
        }
        assert forall|u: Seq<char>| nv.contains(u) <==> (dv.contains(u) || u == kk) by {
            if nv.contains(u) {
                let x = choose|x: int| 0 <= x < nv.len() && nv[x] == u;
                if x < p {
                    assert(dv[x] == u);
                } else if x > p {
                    assert(dv[x - 1] == u);
                }
            }
            if dv.contains(u) {
                let x = choose|x: int| 0 <= x < dv.len() && dv[x] == u;
                if x < p {
                    assert(nv[x] == u);
                } else {
                    assert(nv[x + 1] == u);
                }
            }
            if u == kk {
                assert(nv[p as int] == u);
            }
        }
    }
}

fn duplicate_id_list(ids: &Vec<Option<Vec<char>>>) -> (d: Vec<Vec<char>>)
    ensures
        vec_views(d@) == duplicate_ids(id_views(ids@)),
{
    let ghost iv = id_views(ids@);
    let mut d: Vec<Vec<char>> = Vec::new();
    let mut i: usize = 0;
    while i < ids.len()
        invariant
            i <= ids.len(),
            iv == id_views(ids@),
            strictly_ascending(vec_views(d@)),
            forall|u: Seq<char>|
                #![trigger vec_views(d@).contains(u)]
                vec_views(d@).contains(u) <==> (all_positions_with(iv, u).len() >= 2 && exists|t: int|
                    0 <= t < i && iv[t] == Some(u)),
        decreases ids.len() - i,
    {
        assert(iv[i as int] == id_view(ids@[i as int]));
        match &ids[i] {
            Some(v) => {
                let found = positions_of(ids, v.as_slice());
                if found.len() >= 2 {
                    let mut present = false;
                    let mut q: usize = 0;
                    while q < d.len()
                        invariant
                            q <= d.len(),
                            present == exists|x: int| 0 <= x < q && d@[x]@ == v@,
                        decreases d.len() - q,
                    {
                        if chars_eq(d[q].as_slice(), v.as_slice()) {
                            present = true;
                        }
                        q += 1;
                    }
                    proof {
                        if vec_views(d@).contains(v@) {
                            let x = choose|x: int| 0 <= x < d@.len() && vec_views(d@)[x] == v@;
                            assert(d@[x]@ == v@);
                        }
                        if present {
                            let x = choose|x: int| 0 <= x < q && d@[x]@ == v@;
                            assert(vec_views(d@)[x] == v@);
                        }
                    }
                    if !present {
                        let ghost before = vec_views(d@);
                        insert_ascending(&mut d, v.clone());
                    }
                }
            },
            None => {},
        }
        proof {
            assert forall|u: Seq<char>|
                vec_views(d@).contains(u) <==> (all_positions_with(iv, u).len() >= 2 && exists|t: int|
                    0 <= t < i + 1 && iv[t] == Some(u)) by {
                if exists|t: int| 0 <= t < i + 1 && iv[t] == Some(u) {
                    if !(exists|t: int| 0 <= t < i && iv[t] == Some(u)) {
                        assert(iv[i as int] == Some(u));
                    }
                }
            }
        }
        i += 1;
    }
    proof {
        let dv = vec_views(d@);
        assert forall|u: Seq<char>|
            #![trigger dv.contains(u)]
            #![trigger all_positions_with(iv, u)]
            dv.contains(u) <==> all_positions_with(iv, u).len() >= 2 by {
            if all_positions_with(iv, u).len() >= 2 {
                lemma_positions_with_members(iv, u, iv.len() as int);
                let t = all_positions_with(iv, u)[0] as int;
                assert(iv[t] == Some(u));
            }
        }
        assert(is_duplicate_listing(iv, dv));
        lemma_strictly_ascending_unique(dv, duplicate_ids(iv));
    }
    d
}


/// The view of the diagnostic `kind` built from these values; the fields
/// the variant does not have read as zero or empty.
pub open spec fn diagnostic_of(
    kind: DiagnosticKind,
    u: Seq<char>,
    owner: usize,
    at: usize,
    indexes: Seq<usize>,
) -> <PresentationReferenceDiagnostic as View>::V {
    match kind {
        DiagnosticKind::DanglingSelected => (kind, u, 0, 0, seq![]),
        DiagnosticKind::DanglingCue => (kind, u, owner, at, seq![]),
        DiagnosticKind::DanglingGroup => (kind, u, owner, at, seq![]),
        DiagnosticKind::AmbiguousCue => (kind, u, owner, at, indexes),
        DiagnosticKind::AmbiguousGroup => (kind, u, owner, at, indexes),
        _ => (kind, u, 0, 0, indexes),
    }
}

fn diagnostic(
    kind: DiagnosticKind,
    uuid: String,
    owner: usize,
    at: usize,
    indexes: Vec<usize>,
) -> (d: PresentationReferenceDiagnostic)
    ensures
        d@ == diagnostic_of(kind, uuid@, owner, at, indexes@),
{
    match kind {
        DiagnosticKind::DuplicateCue => PresentationReferenceDiagnostic::DuplicateCueUuid {
            uuid,
            cue_indexes: indexes,
        },
        DiagnosticKind::DuplicateCueGroup => PresentationReferenceDiagnostic::DuplicateCueGroupUuid {
            uuid,
            cue_group_indexes: indexes,
        },
        DiagnosticKind::DuplicateArrangement => PresentationReferenceDiagnostic::DuplicateArrangementUuid {
            uuid,
            arrangement_indexes: indexes,
        },
        DiagnosticKind::DanglingSelected => PresentationReferenceDiagnostic::DanglingSelectedArrangement {
            uuid,
        },
        DiagnosticKind::AmbiguousSelected => PresentationReferenceDiagnostic::AmbiguousSelectedArrangement {
            uuid,
            arrangement_indexes: indexes,
        },
        DiagnosticKind::DanglingCue => PresentationReferenceDiagnostic::DanglingCueReference {
            cue_group_index: owner,
            reference_index: at,
            uuid,
        },
        DiagnosticKind::AmbiguousCue => PresentationReferenceDiagnostic::AmbiguousCueReference {
            cue_group_index: owner,
            reference_index: at,
            uuid,
            cue_indexes: indexes,
        },
        DiagnosticKind::DanglingGroup => PresentationReferenceDiagnostic::DanglingGroupReference {
            arrangement_index: owner,
            reference_index: at,
            uuid,
        },
        DiagnosticKind::AmbiguousGroup => PresentationReferenceDiagnostic::AmbiguousGroupReference {
            arrangement_index: owner,
            reference_index: at,
            uuid,
            cue_group_indexes: indexes,
        },
    }
}

/// The variants that report duplicate identities.
pub open spec fn is_duplicate_kind(kind: DiagnosticKind) -> bool {
    kind is DuplicateCue || kind is DuplicateCueGroup || kind is DuplicateArrangement
}

/// The dangling/ambiguous variant pairs of one reference kind, with the
/// owner and reference positions that kind records.
pub open spec fn is_reference_kind_pair(
    dangling: DiagnosticKind,
    ambiguous: DiagnosticKind,
    owner: usize,
    at: usize,
) -> bool {
    ||| dangling is DanglingSelected && ambiguous is AmbiguousSelected && owner == 0 && at == 0
    ||| dangling is DanglingCue && ambiguous is AmbiguousCue
    ||| dangling is DanglingGroup && ambiguous is AmbiguousGroup
}

fn push_duplicates(
    out: &mut Vec<PresentationReferenceDiagnostic>,
    ids: &Vec<Option<Vec<char>>>,
    kind: DiagnosticKind,
)
    requires
        is_duplicate_kind(kind),
    ensures
        diagnostic_views(final(out)@) == diagnostic_views(old(out)@) + duplicate_diagnostics(
            kind,
            id_views(ids@),
        ),
{
    let ghost iv = id_views(ids@);
    let ghost start = diagnostic_views(out@);
    let d = duplicate_id_list(ids);
    let ghost all = duplicate_diagnostics(kind, iv);
    assert(all.len() == d@.len()) by {
        assert(vec_views(d@).len() == d@.len());
    }
    let mut k: usize = 0;
    while k < d.len()
        invariant
            k <= d.len(),
            iv == id_views(ids@),
            is_duplicate_kind(kind),
            vec_views(d@) == duplicate_ids(iv),
            all == duplicate_diagnostics(kind, iv),
            all.len() == d@.len(),
            diagnostic_views(out@) == start + all.take(k as int),
        decreases d.len() - k,
    {
        let idx = positions_of(ids, d[k].as_slice());
        let ghost before = out@;
        let item = diagnostic(kind, string_of(d[k].as_slice()), 0, 0, idx);
        out.push(item);
        proof {
            assert(vec_views(d@)[k as int] == d@[k as int]@);
            assert(all[k as int] == (kind, d@[k as int]@, 0usize, 0usize, all_positions_with(iv, d@[k as int]@)));
            assert(all.take(k + 1) =~= all.take(k as int).push(all[k as int]));
            assert(diagnostic_views(out@) =~= diagnostic_views(before).push(item@));
        }
        k += 1;
    }
    proof {
        assert(all.take(k as int) =~= all);
    }
}

fn push_reference(
    out: &mut Vec<PresentationReferenceDiagnostic>,
    ids: &Vec<Option<Vec<char>>>,
    uuid: &String,
    dangling: DiagnosticKind,
    ambiguous: DiagnosticKind,
    owner: usize,
    at: usize,
)
    requires
        is_reference_kind_pair(dangling, ambiguous, owner, at),
    ensures
        diagnostic_views(final(out)@) == diagnostic_views(old(out)@) + reference_diagnostic(
            dangling,
            ambiguous,
            id_views(ids@),
            uuid@,
            owner,
            at,
        ),
{
    let u = chars_of(uuid.as_str());
    let found = positions_of(ids, u.as_slice());
    let ghost before = out@;
    if found.len() == 0 {
        let item = diagnostic(dangling, uuid.clone(), owner, at, Vec::new());
        out.push(item);
        proof {
            assert(diagnostic_views(out@) =~= diagnostic_views(before).push(item@));
        }
    } else if found.len() >= 2 {
        let item = diagnostic(ambiguous, uuid.clone(), owner, at, found);
        out.push(item);
        proof {
            assert(diagnostic_views(out@) =~= diagnostic_views(before).push(item@));
        }
    } else {
        proof {
            assert(diagnostic_views(out@) =~= diagnostic_views(before) + Seq::<
                <PresentationReferenceDiagnostic as View>::V,
            >::empty());
        }
    }
}

fn push_references(
    out: &mut Vec<PresentationReferenceDiagnostic>,
    ids: &Vec<Option<Vec<char>>>,
    refs: &Vec<String>,
    dangling: DiagnosticKind,
    ambiguous: DiagnosticKind,
    owner: usize,
)
    requires
        is_reference_kind_pair(dangling, ambiguous, owner, 1),
    ensures
        diagnostic_views(final(out)@) == diagnostic_views(old(out)@) + references_diagnostics(
            dangling,
            ambiguous,
            id_views(ids@),
            refs@,
            owner,
            refs@.len() as int,
        ),
{
    let ghost start = diagnostic_views(out@);
    let mut k: usize = 0;
    while k < refs.len()
        invariant
            k <= refs.len(),
            is_reference_kind_pair(dangling, ambiguous, owner, 1),
            diagnostic_views(out@) == start + references_diagnostics(
                dangling,
                ambiguous,
                id_views(ids@),
                refs@,
                owner,
                k as int,
            ),
        decreases refs.len() - k,
    {
        push_reference(out, ids, &refs[k], dangling, ambiguous, owner, k);
        k += 1;
    }
}

impl<'a> ResolvedPresentationGraph<'a> {
    /// Every identity and reference problem of the presentation, in report
    /// order (see `presentation_diagnostics`).
    pub fn reference_diagnostics(&self) -> (r: Vec<PresentationReferenceDiagnostic>)
        ensures
            diagnostic_views(r@) == presentation_diagnostics(self.source()),
    {
        proof {
            use_type_invariant(self);
        }
        let p = self.presentation;
        let mut out: Vec<PresentationReferenceDiagnostic> = Vec::new();
        push_duplicates(&mut out, &self.cues, DiagnosticKind::DuplicateCue);
        push_duplicates(&mut out, &self.groups, DiagnosticKind::DuplicateCueGroup);
        push_duplicates(&mut out, &self.arrangements, DiagnosticKind::DuplicateArrangement);
        match &p.selected_arrangement {
            Some(s) => push_reference(
                &mut out,
                &self.arrangements,
                s,
                DiagnosticKind::DanglingSelected,
                DiagnosticKind::AmbiguousSelected,
                0,
                0,
            ),
            None => {},
        }
        let ghost head = diagnostic_views(out@);
        let mut g: usize = 0;
        while g < p.cue_groups.len()
            invariant
                g <= p.cue_groups.len(),
                id_views(self.cues@) == cue_ids(*p),
                diagnostic_views(out@) == head + cue_reference_diagnostics(*p, g as int),
            decreases p.cue_groups.len() - g,
        {
            push_references(
                &mut out,
                &self.cues,
                &p.cue_groups[g].cue_identifiers,
                DiagnosticKind::DanglingCue,
                DiagnosticKind::AmbiguousCue,
                g,
            );
            g += 1;
        }
        let ghost mid = diagnostic_views(out@);
        let mut a: usize = 0;
        while a < p.arrangements.len()
            invariant
                a <= p.arrangements.len(),
                id_views(self.groups@) == group_ids(*p),
                diagnostic_views(out@) == mid + group_reference_diagnostics(*p, a as int),
            decreases p.arrangements.len() - a,
        {
            push_references(
                &mut out,
                &self.groups,
                &p.arrangements[a].group_identifiers,
                DiagnosticKind::DanglingGroup,
                DiagnosticKind::AmbiguousGroup,
                a,
            );
            a += 1;
        }
        proof {
            assert(diagnostic_views(out@) =~= presentation_diagnostics(*p));
        }
        out
    }
}


/// Inspection and mutation agree: a reference is diagnosed dangling exactly
/// when resolving it finds nothing, ambiguous (with the same positions)
/// exactly when resolving it is ambiguous, and not at all when it resolves
/// to one element.
pub proof fn law_reference_diagnostic_agrees_with_resolution(
    r: ReferenceResolution,
    ids: Seq<Option<Seq<char>>>,
    u: Seq<char>,
    dangling: DiagnosticKind,
    ambiguous: DiagnosticKind,
    owner: usize,
    at: usize,
)
    requires
        resolves_to(r, all_positions_with(ids, u)),
    ensures
        reference_diagnostic(dangling, ambiguous, ids, u, owner, at) == match r {
            ReferenceResolution::Missing => seq![(dangling, u, owner, at, Seq::<usize>::empty())],
            ReferenceResolution::Unique(_) => Seq::<<PresentationReferenceDiagnostic as View>::V>::empty(),
            ReferenceResolution::Ambiguous(v) => seq![(ambiguous, u, owner, at, v@)],
        },
{
    if let ReferenceResolution::Unique(i) = r {
        assert(all_positions_with(ids, u).len() == 1);
        assert(reference_diagnostic(dangling, ambiguous, ids, u, owner, at) =~= Seq::<
            <PresentationReferenceDiagnostic as View>::V,
        >::empty());
    }
}

} // verus!
