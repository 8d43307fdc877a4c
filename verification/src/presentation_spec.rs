//! Checked, renderer-independent presentation specification.
//!
//! Source-specific planning produces this small semantic model; the renderer
//! turns it into native cues. Every collection here is non-empty by
//! construction and every cross reference is checked when it is made.
use vstd::prelude::*;
use crate::rtf::{segment_views, SegmentView, StyledSegment};
use crate::text::{
    char_seq_le, chars_le, chars_of, has_control, lemma_char_seq_le_antisym,
    lemma_char_seq_le_refl, lemma_char_seq_le_total, lemma_char_seq_le_trans, str_eq,
    to_lowercase, trim, trim_str, unicode_lowercase, any_control,
};

verus! {

/// Failure to construct a checked presentation specification.
#[derive(Debug, PartialEq, Eq)]
pub enum PresentationSpecError {
    /// A semantic identifier is blank, padded, or holds control characters.
    InvalidIdentifier {
        /// Kind of identifier being checked.
        kind: &'static str,
    },
    /// A text field occurs more than once in one cue.
    DuplicateTextField {
        /// Duplicate semantic field.
        field: String,
    },
    /// A cue label is blank, padded, or holds control characters.
    InvalidCueLabel,
    /// Two cue groups share one semantic identity.
    DuplicateGroupId {
        /// Repeated semantic group identity.
        id: String,
    },
    /// Two arrangements have names that differ only by case.
    DuplicateArrangementName {
        /// First exact spelling.
        first: String,
        /// Conflicting exact spelling.
        duplicate: String,
    },
    /// An arrangement references a group absent from the presentation.
    UnknownArrangementGroup {
        /// Arrangement containing the dangling reference.
        arrangement: String,
        /// Missing semantic group identity.
        group: String,
    },
    /// The selected arrangement is absent from the presentation.
    UnknownSelectedArrangement {
        /// Missing arrangement name.
        name: String,
    },
}

/// A native identifier: non-empty, equal to its own trim, no control
/// characters.
pub open spec fn valid_identifier(s: Seq<char>) -> bool {
    &&& s.len() > 0
    &&& trim(s) == s
    &&& !has_control(s)
}

fn is_valid_identifier(value: &str) -> (r: bool)
    ensures
        r == valid_identifier(value@),
{
    let chars = chars_of(value);
    if chars.len() == 0 {
        return false;
    }
    let trimmed = trim_str(value);
    if !str_eq(trimmed.as_str(), value) {
        return false;
    }
    !any_control(chars.as_slice())
}

fn checked_identifier(value: &str, kind: &'static str) -> (r: Result<String, PresentationSpecError>)
    ensures
        match r {
            Ok(v) => valid_identifier(value@) && v@ == value@,
            Err(e) => !valid_identifier(value@) && e == (PresentationSpecError::InvalidIdentifier {
                kind,
            }),
        },
{
    if is_valid_identifier(value) {
        Ok(value.to_string())
    } else {
        Err(PresentationSpecError::InvalidIdentifier { kind })
    }
}

/// Stable semantic identity of one cue role.
#[derive(Debug, PartialEq, Eq, PartialOrd, Ord, Hash)]
pub struct CueRoleId(String);

impl View for CueRoleId {
    type V = Seq<char>;

    closed spec fn view(&self) -> Seq<char> {
        self.0@
    }
}

impl Clone for CueRoleId {
    fn clone(&self) -> (r: Self)
        ensures
            r@ == self@,
    {
        CueRoleId(self.0.clone())
    }
}

impl CueRoleId {
    /// Parse one role identity.
    pub fn new(value: &str) -> (r: Result<Self, PresentationSpecError>)
        ensures
            match r {
                Ok(id) => valid_identifier(value@) && id@ == value@,
                Err(e) => !valid_identifier(value@) && e == (
                PresentationSpecError::InvalidIdentifier { kind: "cue role" }),
            },
    {
        match checked_identifier(value, "cue role") {
            Ok(v) => Ok(CueRoleId(v)),
            Err(e) => Err(e),
        }
    }

    /// The role identity text.
    pub fn as_str(&self) -> (s: &str)
        ensures
            s@ == self@,
    {
        self.0.as_str()
    }
}

/// Stable semantic identity of one presentation-local cue group, separate
/// from its operator-visible name.
#[derive(Debug, PartialEq, Eq, PartialOrd, Ord, Hash)]
pub struct GroupId(String);

impl View for GroupId {
    type V = Seq<char>;

    closed spec fn view(&self) -> Seq<char> {
        self.0@
    }
}

impl Clone for GroupId {
    fn clone(&self) -> (r: Self)
        ensures
            r@ == self@,
    {
        GroupId(self.0.clone())
    }
}

/// Identity of the single anonymous root group.
pub open spec fn root_group_id() -> Seq<char> {
    "__proflow_root"@
}

impl GroupId {
    /// Parse one semantic group identity.
    pub fn new(value: &str) -> (r: Result<Self, PresentationSpecError>)
        ensures
            match r {
                Ok(id) => valid_identifier(value@) && id@ == value@,
                Err(e) => !valid_identifier(value@) && e == (
                PresentationSpecError::InvalidIdentifier { kind: "cue group id" }),
            },
    {
        match checked_identifier(value, "cue group id") {
            Ok(v) => Ok(GroupId(v)),
            Err(e) => Err(e),
        }
    }

    /// Conventional identity for presentations with one anonymous root group.
    pub fn root() -> (id: Self)
        ensures
            id@ == root_group_id(),
    {
        GroupId("__proflow_root".to_string())
    }

    /// The semantic group identity text.
    pub fn as_str(&self) -> (s: &str)
        ensures
            s@ == self@,
    {
        self.0.as_str()
    }
}

/// Checked operator-visible arrangement name.
#[derive(Debug, PartialEq, Eq, PartialOrd, Ord, Hash)]
pub struct ArrangementName(String);

impl View for ArrangementName {
    type V = Seq<char>;

    closed spec fn view(&self) -> Seq<char> {
        self.0@
    }
}

impl Clone for ArrangementName {
    fn clone(&self) -> (r: Self)
        ensures
            r@ == self@,
    {
        ArrangementName(self.0.clone())
    }
}

impl ArrangementName {
    /// Parse one arrangement name.
    pub fn new(value: &str) -> (r: Result<Self, PresentationSpecError>)
        ensures
            match r {
                Ok(n) => valid_identifier(value@) && n@ == value@,
                Err(e) => !valid_identifier(value@) && e == (
                PresentationSpecError::InvalidIdentifier { kind: "arrangement name" }),
            },
    {
        match checked_identifier(value, "arrangement name") {
            Ok(v) => Ok(ArrangementName(v)),
            Err(e) => Err(e),
        }
    }

    /// The exact native arrangement name.
    pub fn as_str(&self) -> (s: &str)
        ensures
            s@ == self@,
    {
        self.0.as_str()
    }
}

/// Semantic text field bound to a native template element.
#[derive(Debug, PartialEq, Eq, PartialOrd, Ord, Hash)]
pub struct TextField(String);

impl View for TextField {
    type V = Seq<char>;

    closed spec fn view(&self) -> Seq<char> {
        self.0@
    }
}

impl Clone for TextField {
    fn clone(&self) -> (r: Self)
        ensures
            r@ == self@,
    {
        TextField(self.0.clone())
    }
}

/// The conventional single-text-box field.
pub open spec fn body_field() -> Seq<char> {
    "body"@
}

impl TextField {
    /// Parse one semantic field name.
    pub fn new(value: &str) -> (r: Result<Self, PresentationSpecError>)
        ensures
            match r {
                Ok(f) => valid_identifier(value@) && f@ == value@,
                Err(e) => !valid_identifier(value@) && e == (
                PresentationSpecError::InvalidIdentifier { kind: "text field" }),
            },
    {
        match checked_identifier(value, "text field") {
            Ok(v) => Ok(TextField(v)),
            Err(e) => Err(e),
        }
    }

    /// Conventional field used by single-text-box templates.
    pub fn body() -> (f: Self)
        ensures
            f@ == body_field(),
    {
        TextField("body".to_string())
    }

    /// The semantic field name.
    pub fn as_str(&self) -> (s: &str)
        ensures
            s@ == self@,
    {
        self.0.as_str()
    }
}

/// Checked native slide-action label.
#[derive(Debug, PartialEq, Eq)]
pub struct CueLabel(String);

impl View for CueLabel {
    type V = Seq<char>;

    closed spec fn view(&self) -> Seq<char> {
        self.0@
    }
}

impl Clone for CueLabel {
    fn clone(&self) -> (r: Self)
        ensures
            r@ == self@,
    {
        CueLabel(self.0.clone())
    }
}

impl CueLabel {
    /// Parse a label.
    pub fn new(value: &str) -> (r: Result<Self, PresentationSpecError>)
        ensures
            match r {
                Ok(l) => valid_identifier(value@) && l@ == value@,
                Err(e) => !valid_identifier(value@) && e == PresentationSpecError::InvalidCueLabel,
            },
    {
        if is_valid_identifier(value) {
            Ok(CueLabel(value.to_string()))
        } else {
            Err(PresentationSpecError::InvalidCueLabel)
        }
    }

    /// The label text.
    pub fn as_str(&self) -> (s: &str)
        ensures
            s@ == self@,
    {
        self.0.as_str()
    }
}

// ---------------------------------------------------------------------------
// Text bindings
// ---------------------------------------------------------------------------

/// Abstract text bindings: field names with their segments, in field order.
pub type BindingsView = Seq<(Seq<char>, Seq<SegmentView>)>;

/// Strict lexicographic order on field names.
pub open spec fn field_lt(a: Seq<char>, b: Seq<char>) -> bool {
    char_seq_le(a, b) && a != b
}

/// Field names strictly increase along the bindings.
pub open spec fn bindings_sorted(b: BindingsView) -> bool {
    forall|i: int, j: int| 0 <= i < j < b.len() ==> field_lt(#[trigger] b[i].0, #[trigger] b[j].0)
}

/// The field names of `l[..n]` are pairwise distinct.
pub open spec fn distinct_fields_upto(l: BindingsView, n: int) -> bool {
    forall|i: int, j: int| 0 <= i < j < n ==> #[trigger] l[i].0 != #[trigger] l[j].0
}

/// Field `j` of `l` repeats an earlier field.
pub open spec fn repeats_earlier_field(l: BindingsView, j: int) -> bool {
    exists|i: int| 0 <= i < j && #[trigger] l[i].0 == l[j].0
}

/// `e` reports field `j` of `l` as the first repeated field.
pub open spec fn reports_duplicate_field(l: BindingsView, j: int, e: PresentationSpecError) -> bool {
    &&& 0 <= j < l.len()
    &&& distinct_fields_upto(l, j)
    &&& repeats_earlier_field(l, j)
    &&& e matches PresentationSpecError::DuplicateTextField { field }
    &&& field@ == l[j].0
}

/// `b` holds exactly the pairs of `l`, in field order.
pub open spec fn bindings_of(b: BindingsView, l: BindingsView) -> bool {
    &&& bindings_sorted(b)
    &&& b.len() == l.len()
    &&& forall|i: int| 0 <= i < l.len() ==> b.contains(#[trigger] l[i])
    &&& forall|k: int| 0 <= k < b.len() ==> l.contains(#[trigger] b[k])
}

/// The views of exec binding pairs.
pub open spec fn binding_views(v: Seq<(TextField, Vec<StyledSegment>)>) -> BindingsView {
    v.map_values(|p: (TextField, Vec<StyledSegment>)| (p.0@, segment_views(p.1@)))
}

/// Non-empty text values for one cue, keyed by semantic template field.
pub struct TextBindings {
    values: Vec<(TextField, Vec<StyledSegment>)>,
}

impl View for TextBindings {
    type V = BindingsView;

    closed spec fn view(&self) -> BindingsView {
        binding_views(self.values@)
    }
}

proof fn lemma_field_lt_trans(a: Seq<char>, b: Seq<char>, c: Seq<char>)
    requires
        field_lt(a, b),
        char_seq_le(b, c),
    ensures
        field_lt(a, c),
{
    lemma_char_seq_le_trans(a, b, c);
    if a == c {
        lemma_char_seq_le_antisym(a, b);
    }
}

impl TextBindings {
    /// Bind one field.
    pub fn single(field: TextField, segments: Vec<StyledSegment>) -> (b: Self)
        ensures
            b@ == seq![(field@, segment_views(segments@))],
    {
        let mut values: Vec<(TextField, Vec<StyledSegment>)> = Vec::new();
        values.push((field, segments));
        let b = TextBindings { values };
        proof {
            assert(b@ =~= seq![(field@, segment_views(segments@))]);
        }
        b
    }

    /// Bind several distinct fields; a repeated field is an error naming the
    /// first repetition.
    pub fn new(first: (TextField, Vec<StyledSegment>), rest: Vec<(TextField, Vec<StyledSegment>)>) -> (r:
        Result<Self, PresentationSpecError>)
        ensures
            ({
                let l = seq![(first.0@, segment_views(first.1@))] + binding_views(rest@);
                match r {
                    Ok(b) => distinct_fields_upto(l, l.len() as int) && bindings_of(b@, l),
                    Err(e) => exists|j: int| reports_duplicate_field(l, j, e),
                }
            }),
    {
        let ghost l = seq![(first.0@, segment_views(first.1@))] + binding_views(rest@);
        let mut values: Vec<(TextField, Vec<StyledSegment>)> = Vec::new();
        values.push(first);
        let ghost rest0 = rest@;
        let mut pending = rest;
        let ghost mut n: int = 1;
        proof {
            assert(binding_views(values@) =~= l.take(1));
        }
        while pending.len() > 0
            invariant
                1 <= n <= l.len(),
                n + pending.len() == l.len(),
                l == seq![(first.0@, segment_views(first.1@))] + binding_views(rest0),
                rest0 == rest@,
                binding_views(pending@) == l.skip(n),
                distinct_fields_upto(l, n),
                bindings_of(binding_views(values@), l.take(n)),
            decreases pending.len(),
        {
            let ghost bv = binding_views(values@);
            let ghost lt = l.take(n);
            let ghost rv = pending@;
            let item = pending.remove(0);
            proof {
                assert(item == rv[0]);
                assert(binding_views(rv)[0] == l.skip(n)[0]);
                assert(l[n] == (item.0@, segment_views(item.1@)));
                assert(pending@ =~= rv.drop_first());
                assert(binding_views(pending@) =~= binding_views(rv).drop_first());
                assert(l.skip(n).drop_first() =~= l.skip(n + 1));
            }
            // first position whose field is not below the new one
            let mut pos: usize = 0;
            while pos < values.len() && !chars_le(
                chars_of(item.0.as_str()).as_slice(),
                chars_of(values[pos].0.as_str()).as_slice(),
            )
                invariant
                    pos <= values.len(),
                    bv == binding_views(values@),
                    bindings_sorted(bv),
                    forall|k: int| 0 <= k < pos ==> field_lt(#[trigger] bv[k].0, item.0@),
                decreases values.len() - pos,
            {
                proof {
                    lemma_char_seq_le_total(item.0@, bv[pos as int].0);
                    lemma_char_seq_le_refl(item.0@);
                    assert(field_lt(bv[pos as int].0, item.0@));
                }
                pos += 1;
            }
            if pos < values.len() && str_eq(values[pos].0.as_str(), item.0.as_str()) {
                proof {
                    assert(lt.contains(bv[pos as int]));
                    let i = choose|i: int| 0 <= i < lt.len() && lt[i] == bv[pos as int];
                    assert(l[i].0 == l[n].0);
                    assert(repeats_earlier_field(l, n));
                }
                let e = PresentationSpecError::DuplicateTextField {
                    field: item.0.as_str().to_string(),
                };
                proof {
                    assert(reports_duplicate_field(l, n, e));
                    assert(l == seq![(first.0@, segment_views(first.1@))] + binding_views(rest@));
                }
                return Err(e);
            }
            proof {
                // the new field differs from every earlier one
                assert forall|k: int| 0 <= k < bv.len() implies #[trigger] bv[k].0 != item.0@ by {
                    if k >= pos {
                        assert(char_seq_le(item.0@, bv[pos as int].0));
                        if k > pos {
                            assert(field_lt(bv[pos as int].0, bv[k].0));
                            lemma_char_seq_le_trans(item.0@, bv[pos as int].0, bv[k].0);
                            if bv[k].0 == item.0@ {
                                lemma_char_seq_le_antisym(item.0@, bv[pos as int].0);
                            }
                        }
                    }
                }
                assert forall|i: int, j: int| 0 <= i < j < n + 1 implies #[trigger] l[i].0
                    != #[trigger] l[j].0 by {
                    if j == n {
                        assert(lt[i] == l[i]);
                        assert(bv.contains(lt[i]));
                        let k = choose|k: int| 0 <= k < bv.len() && bv[k] == lt[i];
                        assert(bv[k].0 != item.0@);
                    }
                }
            }
            values.insert(pos, item);
            proof {
                n = n + 1;
            }
            proof {
                let nb = binding_views(values@);
                let x = (item.0@, segment_views(item.1@));
                assert(nb =~= bv.insert(pos as int, x));
                assert(bindings_sorted(nb)) by {
                    assert forall|i: int, j: int| 0 <= i < j < nb.len() implies field_lt(
                        #[trigger] nb[i].0,
                        #[trigger] nb[j].0,
                    ) by {
                        if j < pos {
                            assert(nb[i] == bv[i] && nb[j] == bv[j]);
                        } else if j == pos {
                            assert(nb[i] == bv[i]);
                        } else if i < pos {
                            assert(nb[i] == bv[i] && nb[j] == bv[j - 1]);
                            assert(field_lt(bv[i].0, item.0@));
                            assert(char_seq_le(item.0@, bv[pos as int].0));
                            lemma_field_lt_trans(bv[i].0, item.0@, bv[pos as int].0);
                            if j - 1 > pos {
                                assert(field_lt(bv[pos as int].0, bv[j - 1].0));
                                lemma_field_lt_trans(bv[i].0, bv[pos as int].0, bv[j - 1].0);
                            }
                        } else if i == pos {
                            assert(nb[j] == bv[j - 1]);
                            assert(bv[j - 1].0 != item.0@);
                            if j - 1 == pos {
                                assert(char_seq_le(item.0@, bv[pos as int].0));
                            } else {
                                assert(field_lt(bv[pos as int].0, bv[j - 1].0));
                                lemma_char_seq_le_trans(item.0@, bv[pos as int].0, bv[j - 1].0);
                            }
                        } else {
                            assert(nb[i] == bv[i - 1] && nb[j] == bv[j - 1]);
                        }
                    }
                }
                let lt2 = l.take(n);
                assert(lt2 =~= lt.push(x));
                assert forall|i: int| 0 <= i < lt2.len() implies nb.contains(#[trigger] lt2[i]) by {
                    if i < lt.len() {
                        assert(bv.contains(lt[i]));
                        let k = choose|k: int| 0 <= k < bv.len() && bv[k] == lt[i];
                        if k < pos {
                            assert(nb[k] == bv[k]);
                        } else {
                            assert(nb[k + 1] == bv[k]);
                        }
                    } else {
                        assert(nb[pos as int] == x);
                    }
                }
                assert forall|k: int| 0 <= k < nb.len() implies lt2.contains(#[trigger] nb[k]) by {
                    if k < pos {
                        assert(nb[k] == bv[k]);
                        assert(lt.contains(bv[k]));
                        let i = choose|i: int| 0 <= i < lt.len() && lt[i] == bv[k];
                        assert(lt2[i] == lt[i]);
                    } else if k == pos {
                        assert(lt2[lt.len() as int] == x);
                    } else {
                        assert(nb[k] == bv[k - 1]);
                        assert(lt.contains(bv[k - 1]));
                        let i = choose|i: int| 0 <= i < lt.len() && lt[i] == bv[k - 1];
                        assert(lt2[i] == lt[i]);
                    }
                }
            }
        }
        proof {
            assert(l.take(n) =~= l);
        }
        Ok(TextBindings { values })
    }

    /// The bindings in field-name order.
    pub fn iter(&self) -> (r: &[(TextField, Vec<StyledSegment>)])
        ensures
            binding_views(r@) == self@,
    {
        self.values.as_slice()
    }
}

// ---------------------------------------------------------------------------
// Cues, groups and arrangements
// ---------------------------------------------------------------------------

/// Content applied to one template slide.
pub enum CueContent {
    /// Preserve the template exactly, without changing text fields.
    Static,
    /// Replace one or more explicitly bound text fields.
    Text(TextBindings),
}

impl View for CueContent {
    /// `None` for static content, the bindings otherwise.
    type V = Option<BindingsView>;

    open spec fn view(&self) -> Option<BindingsView> {
        match self {
            CueContent::Static => None,
            CueContent::Text(b) => Some(b@),
        }
    }
}

/// Abstract cue: role, content and optional label.
pub type CueView = (Seq<char>, Option<BindingsView>, Option<Seq<char>>);

/// One checked cue in a presentation.
pub struct CueSpec {
    role: CueRoleId,
    content: CueContent,
    label: Option<CueLabel>,
}

impl View for CueSpec {
    type V = CueView;

    closed spec fn view(&self) -> CueView {
        (
            self.role@,
            self.content@,
            match self.label {
                Some(l) => Some(l@),
                None => None,
            },
        )
    }
}

/// The views of a cue list.
pub open spec fn cue_views(s: Seq<CueSpec>) -> Seq<CueView> {
    s.map_values(|c: CueSpec| c@)
}

impl CueSpec {
    /// One static template cue.
    pub fn static_slide(role: CueRoleId) -> (c: Self)
        ensures
            c@ == (role@, None::<BindingsView>, None::<Seq<char>>),
    {
        CueSpec { role, content: CueContent::Static, label: None }
    }

    /// One cue with explicit text bindings.
    pub fn text(role: CueRoleId, bindings: TextBindings) -> (c: Self)
        ensures
            c@ == (role@, Some(bindings@), None::<Seq<char>>),
    {
        CueSpec { role, content: CueContent::Text(bindings), label: None }
    }

    /// The same cue with a native slide-action label.
    pub fn with_label(self, label: CueLabel) -> (c: Self)
        ensures
            c@ == (self@.0, self@.1, Some(label@)),
    {
        let mut c = self;
        c.label = Some(label);
        c
    }

    /// The semantic role used by this cue.
    pub fn role(&self) -> (r: &CueRoleId)
        ensures
            r@ == self@.0,
    {
        &self.role
    }

    /// The content applied to the role template.
    pub fn content(&self) -> (r: &CueContent)
        ensures
            r@ == self@.1,
    {
        &self.content
    }

    /// The optional native slide-action label.
    pub fn label(&self) -> (r: Option<&CueLabel>)
        ensures
            match r {
                Some(l) => self@.2 == Some(l@),
                None => self@.2 is None,
            },
    {
        match &self.label {
            Some(l) => Some(l),
            None => None,
        }
    }
}

/// Abstract group: identity, optional display name, non-empty cue list.
pub type GroupView = (Seq<char>, Option<Seq<char>>, Seq<CueView>);

/// One non-empty native cue group.
pub struct GroupSpec {
    id: GroupId,
    name: Option<String>,
    first: CueSpec,
    rest: Vec<CueSpec>,
}

impl View for GroupSpec {
    type V = GroupView;

    closed spec fn view(&self) -> GroupView {
        (
            self.id@,
            match self.name {
                Some(n) => Some(n@),
                None => None,
            },
            seq![self.first@] + cue_views(self.rest@),
        )
    }
}

/// The views of a group list.
pub open spec fn group_views(s: Seq<GroupSpec>) -> Seq<GroupView> {
    s.map_values(|g: GroupSpec| g@)
}

impl GroupSpec {
    /// One anonymous root group containing at least one cue.
    pub fn anonymous(first: CueSpec, rest: Vec<CueSpec>) -> (g: Self)
        ensures
            g@ == (root_group_id(), None::<Seq<char>>, seq![first@] + cue_views(rest@)),
    {
        GroupSpec::anonymous_with_id(GroupId::root(), first, rest)
    }

    /// One identified anonymous group containing at least one cue.
    pub fn anonymous_with_id(id: GroupId, first: CueSpec, rest: Vec<CueSpec>) -> (g: Self)
        ensures
            g@ == (id@, None::<Seq<char>>, seq![first@] + cue_views(rest@)),
    {
        GroupSpec { id, name: None, first, rest }
    }

    /// One named group whose identity is its name.
    pub fn named(name: &str, first: CueSpec, rest: Vec<CueSpec>) -> (r: Result<
        Self,
        PresentationSpecError,
    >)
        ensures
            match r {
                Ok(g) => valid_identifier(name@) && g@ == (name@, Some(name@), seq![first@]
                    + cue_views(rest@)),
                Err(e) => !valid_identifier(name@) && e == (
                PresentationSpecError::InvalidIdentifier { kind: "cue group name" }),
            },
    {
        let checked = match checked_identifier(name, "cue group name") {
            Ok(v) => v,
            Err(e) => return Err(e),
        };
        GroupSpec::named_with_id(GroupId(checked), name, first, rest)
    }

    /// One identified named group.
    pub fn named_with_id(id: GroupId, name: &str, first: CueSpec, rest: Vec<CueSpec>) -> (r:
        Result<Self, PresentationSpecError>)
        ensures
            match r {
                Ok(g) => valid_identifier(name@) && g@ == (id@, Some(name@), seq![first@]
                    + cue_views(rest@)),
                Err(e) => !valid_identifier(name@) && e == (
                PresentationSpecError::InvalidIdentifier { kind: "cue group name" }),
            },
    {
        match checked_identifier(name, "cue group name") {
            Ok(v) => Ok(GroupSpec { id, name: Some(v), first, rest }),
            Err(e) => Err(e),
        }
    }

    /// The stable presentation-local group identity.
    pub fn id(&self) -> (r: &GroupId)
        ensures
            r@ == self@.0,
    {
        &self.id
    }

    /// The optional group display name.
    pub fn name(&self) -> (r: Option<&str>)
        ensures
            match r {
                Some(n) => self@.1 == Some(n@),
                None => self@.1 is None,
            },
    {
        match &self.name {
            Some(n) => Some(n.as_str()),
            None => None,
        }
    }

    /// The non-empty cue sequence.
    pub fn cues(&self) -> (r: Vec<&CueSpec>)
        ensures
            r.len() == self@.2.len(),
            forall|i: int| 0 <= i < r.len() ==> #[trigger] r[i]@ == self@.2[i],
    {
        let mut r: Vec<&CueSpec> = Vec::new();
        r.push(&self.first);
        let mut i: usize = 0;
        while i < self.rest.len()
            invariant
                i <= self.rest.len(),
                r.len() == i + 1,
                r[0]@ == self.first@,
                forall|k: int| 0 <= k < i ==> #[trigger] r[k + 1]@ == self.rest@[k]@,
            decreases self.rest.len() - i,
        {
            r.push(&self.rest[i]);
            i += 1;
        }
        proof {
            assert forall|k: int| 0 <= k < r.len() implies #[trigger] r[k]@ == self@.2[k] by {
                if k > 0 {
                    assert(r[(k - 1) + 1]@ == self.rest@[k - 1]@);
                }
            }
        }
        r
    }
}

/// Abstract arrangement: name and non-empty group-identity traversal.
pub type ArrangementView = (Seq<char>, Seq<Seq<char>>);

/// The views of a group-identity list.
pub open spec fn group_id_views(s: Seq<GroupId>) -> Seq<Seq<char>> {
    s.map_values(|g: GroupId| g@)
}

/// One non-empty ordered arrangement of presentation-local cue groups;
/// repeated references are kept.
pub struct ArrangementSpec {
    name: ArrangementName,
    first_group: GroupId,
    rest_groups: Vec<GroupId>,
}

impl View for ArrangementSpec {
    type V = ArrangementView;

    closed spec fn view(&self) -> ArrangementView {
        (self.name@, seq![self.first_group@] + group_id_views(self.rest_groups@))
    }
}

/// The views of an arrangement list.
pub open spec fn arrangement_views(s: Seq<ArrangementSpec>) -> Seq<ArrangementView> {
    s.map_values(|a: ArrangementSpec| a@)
}

impl ArrangementSpec {
    /// One named arrangement containing at least one group reference.
    pub fn new(name: &str, first_group: GroupId, rest_groups: Vec<GroupId>) -> (r: Result<
        Self,
        PresentationSpecError,
    >)
        ensures
            match r {
                Ok(a) => valid_identifier(name@) && a@ == (name@, seq![first_group@]
                    + group_id_views(rest_groups@)),
                Err(e) => !valid_identifier(name@) && e == (
                PresentationSpecError::InvalidIdentifier { kind: "arrangement name" }),
            },
    {
        match ArrangementName::new(name) {
            Ok(n) => Ok(ArrangementSpec { name: n, first_group, rest_groups }),
            Err(e) => Err(e),
        }
    }

    /// The exact operator-visible arrangement name.
    pub fn name(&self) -> (r: &ArrangementName)
        ensures
            r@ == self@.0,
    {
        &self.name
    }

    /// Group references in exact traversal order.
    pub fn groups(&self) -> (r: Vec<&GroupId>)
        ensures
            r.len() == self@.1.len(),
            forall|i: int| 0 <= i < r.len() ==> #[trigger] r[i]@ == self@.1[i],
    {
        let mut r: Vec<&GroupId> = Vec::new();
        r.push(&self.first_group);
        let mut i: usize = 0;
        while i < self.rest_groups.len()
            invariant
                i <= self.rest_groups.len(),
                r.len() == i + 1,
                r[0]@ == self.first_group@,
                forall|k: int| 0 <= k < i ==> #[trigger] r[k + 1]@ == self.rest_groups@[k]@,
            decreases self.rest_groups.len() - i,
        {
            r.push(&self.rest_groups[i]);
            i += 1;
        }
        proof {
            assert forall|k: int| 0 <= k < r.len() implies #[trigger] r[k]@ == self@.1[k] by {
                if k > 0 {
                    assert(r[(k - 1) + 1]@ == self.rest_groups@[k - 1]@);
                }
            }
        }
        r
    }
}

// ---------------------------------------------------------------------------
// Presentations
// ---------------------------------------------------------------------------

/// Abstract presentation: name, non-empty groups, arrangements, selection.
pub type PresentationView = (Seq<char>, Seq<GroupView>, Seq<ArrangementView>, Option<Seq<char>>);

/// The identities of a group list.
pub open spec fn group_ids(g: Seq<GroupView>) -> Seq<Seq<char>> {
    g.map_values(|x: GroupView| x.0)
}

/// The first `n` identities are pairwise distinct.
pub open spec fn distinct_upto(ids: Seq<Seq<char>>, n: int) -> bool {
    forall|i: int, j: int| 0 <= i < j < n ==> #[trigger] ids[i] != #[trigger] ids[j]
}

/// `e` reports identity `j` as the first repeated group identity.
pub open spec fn reports_duplicate_group(ids: Seq<Seq<char>>, j: int, e: PresentationSpecError) -> bool {
    &&& 0 <= j < ids.len()
    &&& distinct_upto(ids, j)
    &&& exists|i: int| 0 <= i < j && #[trigger] ids[i] == ids[j]
    &&& e matches PresentationSpecError::DuplicateGroupId { id }
    &&& id@ == ids[j]
}

/// Case-insensitive comparison key of an arrangement name.
pub open spec fn name_key(s: Seq<char>) -> Seq<char> {
    unicode_lowercase(s)
}

/// Arrangement `j` has the same name key as an earlier one.
pub open spec fn name_clash(arrs: Seq<ArrangementView>, j: int) -> bool {
    exists|i: int| 0 <= i < j && #[trigger] name_key(arrs[i].0) == name_key(arrs[j].0)
}

/// The arrangement references a group identity not in `ids`.
pub open spec fn has_unknown_group(a: ArrangementView, ids: Seq<Seq<char>>) -> bool {
    exists|k: int| 0 <= k < a.1.len() && !ids.contains(#[trigger] a.1[k])
}

/// Arrangement `j` is rejected.
pub open spec fn arrangement_fault(arrs: Seq<ArrangementView>, ids: Seq<Seq<char>>, j: int) -> bool {
    name_clash(arrs, j) || has_unknown_group(arrs[j], ids)
}

/// No arrangement is rejected: names are distinct by case and every group
/// reference resolves.
pub open spec fn arrangements_sound(arrs: Seq<ArrangementView>, ids: Seq<Seq<char>>) -> bool {
    forall|j: int| 0 <= j < arrs.len() ==> !#[trigger] arrangement_fault(arrs, ids, j)
}

/// `e` reports arrangement `j`, the first rejected one, as the checks find
/// it: a name clash first, else its first dangling reference.
pub open spec fn reports_arrangement_fault(
    arrs: Seq<ArrangementView>,
    ids: Seq<Seq<char>>,
    j: int,
    e: PresentationSpecError,
) -> bool {
    &&& 0 <= j < arrs.len()
    &&& forall|i: int| 0 <= i < j ==> !#[trigger] arrangement_fault(arrs, ids, i)
    &&& arrangement_fault(arrs, ids, j)
    &&& if name_clash(arrs, j) {
        &&& e matches PresentationSpecError::DuplicateArrangementName { first, duplicate }
        &&& duplicate@ == arrs[j].0
        &&& exists|i: int|
            0 <= i < j && #[trigger] name_key(arrs[i].0) == name_key(arrs[j].0) && first@
                == arrs[i].0
    } else {
        &&& e matches PresentationSpecError::UnknownArrangementGroup { arrangement, group }
        &&& arrangement@ == arrs[j].0
        &&& exists|k: int|
            0 <= k < arrs[j].1.len() && !ids.contains(#[trigger] arrs[j].1[k]) && (forall|m: int|
                0 <= m < k ==> ids.contains(#[trigger] arrs[j].1[m])) && group@ == arrs[j].1[k]
    }
}

/// Arrangement `j` is the first whose name matches `sel` ignoring case.
pub open spec fn first_selection(arrs: Seq<ArrangementView>, sel: Seq<char>, j: int) -> bool {
    &&& 0 <= j < arrs.len()
    &&& name_key(arrs[j].0) == name_key(sel)
    &&& forall|i: int| 0 <= i < j ==> #[trigger] name_key(arrs[i].0) != name_key(sel)
}

/// Some arrangement matches `sel` ignoring case.
pub open spec fn selection_found(arrs: Seq<ArrangementView>, sel: Seq<char>) -> bool {
    exists|j: int| 0 <= j < arrs.len() && #[trigger] name_key(arrs[j].0) == name_key(sel)
}

/// What every checked presentation satisfies: distinct group identities,
/// sound arrangements, and a selection naming one of them exactly.
pub open spec fn presentation_consistent(p: PresentationView) -> bool {
    &&& p.1.len() > 0
    &&& distinct_upto(group_ids(p.1), p.1.len() as int)
    &&& arrangements_sound(p.2, group_ids(p.1))
    &&& match p.3 {
        None => true,
        Some(s) => exists|j: int| 0 <= j < p.2.len() && #[trigger] p.2[j].0 == s,
    }
}

/// One non-empty presentation ready for native rendering.
pub struct PresentationSpec {
    name: String,
    first: GroupSpec,
    rest: Vec<GroupSpec>,
    arrangements: Vec<ArrangementSpec>,
    selected_arrangement: Option<ArrangementName>,
}

impl View for PresentationSpec {
    type V = PresentationView;

    closed spec fn view(&self) -> PresentationView {
        (
            self.name@,
            seq![self.first@] + group_views(self.rest@),
            arrangement_views(self.arrangements@),
            match self.selected_arrangement {
                Some(n) => Some(n@),
                None => None,
            },
        )
    }
}

fn contains_group_id(ids: &Vec<&GroupId>, g: &GroupId) -> (r: bool)
    ensures
        r == ids@.map_values(|x: &GroupId| x@).contains(g@),
{
    let ghost v = ids@.map_values(|x: &GroupId| x@);
    let mut i: usize = 0;
    while i < ids.len()
        invariant
            i <= ids.len(),
            v == ids@.map_values(|x: &GroupId| x@),
            forall|k: int| 0 <= k < i ==> v[k] != g@,
        decreases ids.len() - i,
    {
        if str_eq(ids[i].as_str(), g.as_str()) {
            proof {
                assert(v[i as int] == g@);
            }
            return true;
        }
        i += 1;
    }
    false
}

fn find_key(keys: &Vec<String>, key: &str) -> (r: Option<usize>)
    ensures
        match r {
            Some(i) => i < keys.len() && keys@[i as int]@ == key@ && forall|k: int|
                0 <= k < i ==> #[trigger] keys@[k]@ != key@,
            None => forall|k: int| 0 <= k < keys.len() ==> #[trigger] keys@[k]@ != key@,
        },
{
    let mut i: usize = 0;
    while i < keys.len()
        invariant
            i <= keys.len(),
            forall|k: int| 0 <= k < i ==> #[trigger] keys@[k]@ != key@,
        decreases keys.len() - i,
    {
        if str_eq(keys[i].as_str(), key) {
            return Some(i);
        }
        i += 1;
    }
    None
}

fn first_unknown(ids: &Vec<&GroupId>, groups: &Vec<&GroupId>) -> (r: Option<usize>)
    ensures
        ({
            let iv = ids@.map_values(|x: &GroupId| x@);
            match r {
                Some(k) => k < groups.len() && !iv.contains(groups[k as int]@) && forall|m: int|
                    0 <= m < k ==> iv.contains(#[trigger] groups[m]@),
                None => forall|m: int| 0 <= m < groups.len() ==> iv.contains(#[trigger] groups[m]@),
            }
        }),
{
    let mut k: usize = 0;
    while k < groups.len()
        invariant
            k <= groups.len(),
            forall|m: int|
                0 <= m < k ==> ids@.map_values(|x: &GroupId| x@).contains(#[trigger] groups[m]@),
        decreases groups.len() - k,
    {
        if !contains_group_id(ids, groups[k]) {
            return Some(k);
        }
        k += 1;
    }
    None
}

impl PresentationSpec {
    /// The identities of the groups, in order.
    fn group_id_refs(&self) -> (r: Vec<&GroupId>)
        ensures
            r@.map_values(|x: &GroupId| x@) == group_ids(self@.1),
    {
        let mut r: Vec<&GroupId> = Vec::new();
        r.push(&self.first.id);
        let mut i: usize = 0;
        while i < self.rest.len()
            invariant
                i <= self.rest.len(),
                r.len() == i + 1,
                self@.1 == seq![self.first@] + group_views(self.rest@),
                r@.map_values(|x: &GroupId| x@) == group_ids(self@.1).take(i + 1),
            decreases self.rest.len() - i,
        {
            proof {
                assert(self@.1[i + 1] == self.rest@[i as int]@);
            }
            let ghost before = r@;
            r.push(&self.rest[i].id);
            proof {
                assert(self@.1.len() == self.rest.len() + 1);
                assert(group_ids(self@.1).len() == self@.1.len());
                assert(before.len() == i + 1);
                assert(r@ == before.push(&self.rest[i as int].id));
                let a = r@.map_values(|x: &GroupId| x@);
                let b = group_ids(self@.1).take(i + 2);
                assert(before.map_values(|x: &GroupId| x@) == group_ids(self@.1).take(i + 1));
                assert forall|k: int| 0 <= k < a.len() implies a[k] == b[k] by {
                    if k < i + 1 {
                        assert(r@[k] == before[k]);
                        assert(before.map_values(|x: &GroupId| x@)[k] == group_ids(self@.1).take(i + 1)[k]);
                    }
                }
                assert(a =~= b);
            }
            i += 1;
        }
        proof {
            assert(group_ids(self@.1).take(i + 1) =~= group_ids(self@.1));
        }
        r
    }

    /// One presentation containing at least one non-empty group; the name
    /// must be a valid identifier and group identities distinct.
    pub fn new(name: &str, first: GroupSpec, rest: Vec<GroupSpec>) -> (r: Result<
        Self,
        PresentationSpecError,
    >)
        ensures
            ({
                let groups = seq![first@] + group_views(rest@);
                match r {
                    Ok(p) => valid_identifier(name@) && distinct_upto(
                        group_ids(groups),
                        groups.len() as int,
                    ) && p@ == (name@, groups, Seq::<ArrangementView>::empty(), None::<Seq<char>>),
                    Err(e) => if !valid_identifier(name@) {
                        e == (PresentationSpecError::InvalidIdentifier {
                            kind: "presentation name",
                        })
                    } else {
                        exists|j: int| reports_duplicate_group(group_ids(groups), j, e)
                    },
                }
            }),
            r matches Ok(p) ==> presentation_consistent(p@),
    {
        let checked = match checked_identifier(name, "presentation name") {
            Ok(v) => v,
            Err(e) => return Err(e),
        };
        let spec = PresentationSpec {
            name: checked,
            first,
            rest,
            arrangements: Vec::new(),
            selected_arrangement: None,
        };
        let ids = spec.group_id_refs();
        let ghost iv = ids@.map_values(|x: &GroupId| x@);
        proof {
            assert(spec@.1 == seq![first@] + group_views(rest@));
        }
        let mut j: usize = 0;
        while j < ids.len()
            invariant
                j <= ids.len(),
                valid_identifier(name@),
                iv == ids@.map_values(|x: &GroupId| x@),
                iv == group_ids(seq![first@] + group_views(rest@)),
                iv.len() == ids.len(),
                distinct_upto(iv, j as int),
            decreases ids.len() - j,
        {
            let mut i: usize = 0;
            while i < j
                invariant
                    i <= j < ids.len(),
                    valid_identifier(name@),
                    iv == ids@.map_values(|x: &GroupId| x@),
                    iv == group_ids(seq![first@] + group_views(rest@)),
                    iv.len() == ids.len(),
                    distinct_upto(iv, j as int),
                    forall|k: int| 0 <= k < i ==> iv[k] != iv[j as int],
                decreases j - i,
            {
                if str_eq(ids[i].as_str(), ids[j].as_str()) {
                    let e = PresentationSpecError::DuplicateGroupId {
                        id: ids[j].as_str().to_string(),
                    };
                    proof {
                        assert(iv[i as int] == ids@[i as int]@);
                        assert(iv[j as int] == ids@[j as int]@);
                        assert(iv[i as int] == iv[j as int]);
                        assert(reports_duplicate_group(iv, j as int, e));
                    }
                    return Err(e);
                }
                i += 1;
            }
            j += 1;
        }
        proof {
            assert(arrangement_views(spec.arrangements@) =~= Seq::<ArrangementView>::empty());
            assert(spec@.2 =~= Seq::<ArrangementView>::empty());
        }
        Ok(spec)
    }

    /// Attaches arrangements and an optional selection. Names must differ
    /// ignoring case and every group reference must resolve; the selection
    /// is matched ignoring case and stored with the arrangement's exact name.
    pub fn with_arrangements(
        self,
        arrangements: Vec<ArrangementSpec>,
        selected_arrangement: Option<ArrangementName>,
    ) -> (r: Result<Self, PresentationSpecError>)
        ensures
            ({
                let arrs = arrangement_views(arrangements@);
                let ids = group_ids(self@.1);
                match r {
                    Ok(p) => {
                        &&& arrangements_sound(arrs, ids)
                        &&& p@.0 == self@.0
                        &&& p@.1 == self@.1
                        &&& p@.2 == arrs
                        &&& match selected_arrangement {
                            None => p@.3 is None,
                            Some(sel) => exists|j: int|
                                first_selection(arrs, sel@, j) && p@.3 == Some(arrs[j].0),
                        }
                    },
                    Err(e) => (exists|j: int| reports_arrangement_fault(arrs, ids, j, e)) || {
                        &&& arrangements_sound(arrs, ids)
                        &&& selected_arrangement matches Some(sel)
                        &&& !selection_found(arrs, sel@)
                        &&& e matches PresentationSpecError::UnknownSelectedArrangement { name }
                        &&& name@ == sel@
                    },
                }
            }),
            presentation_consistent(self@) && r is Ok ==> presentation_consistent(r->Ok_0@),
    {
        let ids = self.group_id_refs();
        let ghost iv = ids@.map_values(|x: &GroupId| x@);
        let ghost arrs = arrangement_views(arrangements@);
        let mut keys: Vec<String> = Vec::new();
        let mut j: usize = 0;
        while j < arrangements.len()
            invariant
                j <= arrangements.len(),
                iv == ids@.map_values(|x: &GroupId| x@),
                iv == group_ids(self@.1),
                arrs == arrangement_views(arrangements@),
                keys.len() == j,
                forall|k: int| 0 <= k < j ==> #[trigger] keys@[k]@ == name_key(arrs[k].0),
                forall|k: int| 0 <= k < j ==> !#[trigger] arrangement_fault(arrs, iv, k),
            decreases arrangements.len() - j,
        {
            let arrangement = &arrangements[j];
            let key = to_lowercase(arrangement.name().as_str());
            match find_key(&keys, key.as_str()) {
                Some(i) => {
                    let e = PresentationSpecError::DuplicateArrangementName {
                        first: arrangements[i].name().as_str().to_string(),
                        duplicate: arrangement.name().as_str().to_string(),
                    };
                    proof {
                        assert(name_key(arrs[i as int].0) == name_key(arrs[j as int].0));
                        assert(name_clash(arrs, j as int));
                        assert(arrangement_fault(arrs, iv, j as int));
                        assert(reports_arrangement_fault(arrs, iv, j as int, e));
                    }
                    return Err(e);
                },
                None => {},
            }
            proof {
                assert forall|i: int| 0 <= i < j implies #[trigger] name_key(arrs[i].0) != name_key(
                    arrs[j as int].0,
                ) by {
                    assert(keys@[i]@ != key@);
                }
                assert(!name_clash(arrs, j as int));
            }
            let groups = arrangement.groups();
            match first_unknown(&ids, &groups) {
                Some(k) => {
                    let e = PresentationSpecError::UnknownArrangementGroup {
                        arrangement: arrangement.name().as_str().to_string(),
                        group: groups[k].as_str().to_string(),
                    };
                    proof {
                        assert(groups[k as int]@ == arrs[j as int].1[k as int]);
                        assert(!iv.contains(arrs[j as int].1[k as int]));
                        assert forall|m: int| 0 <= m < k implies iv.contains(
                            #[trigger] arrs[j as int].1[m],
                        ) by {
                            assert(groups[m]@ == arrs[j as int].1[m]);
                        }
                        assert(has_unknown_group(arrs[j as int], iv));
                        assert(arrangement_fault(arrs, iv, j as int));
                        assert(reports_arrangement_fault(arrs, iv, j as int, e));
                    }
                    return Err(e);
                },
                None => {},
            }
            proof {
                assert forall|m: int| 0 <= m < arrs[j as int].1.len() implies iv.contains(
                    #[trigger] arrs[j as int].1[m],
                ) by {
                    assert(groups[m]@ == arrs[j as int].1[m]);
                }
                assert(!has_unknown_group(arrs[j as int], iv));
                assert(!arrangement_fault(arrs, iv, j as int));
            }
            keys.push(key);
            j += 1;
        }
        let ghost mut sel_idx: int = 0;
        let selected: Option<ArrangementName> = match selected_arrangement {
            None => None,
            Some(sel) => {
                let key = to_lowercase(sel.as_str());
                match find_key(&keys, key.as_str()) {
                    Some(i) => {
                        proof {
                            assert forall|k: int| 0 <= k < i implies #[trigger] name_key(arrs[k].0)
                                != name_key(sel@) by {
                                assert(keys@[k]@ != key@);
                            }
                            assert(first_selection(arrs, sel@, i as int));
                            sel_idx = i as int;
                        }
                        Some(arrangements[i].name().clone())
                    },
                    None => {
                        proof {
                            assert forall|k: int| 0 <= k < arrs.len() implies #[trigger] name_key(
                                arrs[k].0,
                            ) != name_key(sel@) by {
                                assert(keys@[k]@ != key@);
                            }
                            assert(!selection_found(arrs, sel@));
                        }
                        return Err(
                            PresentationSpecError::UnknownSelectedArrangement {
                                name: sel.as_str().to_string(),
                            },
                        );
                    },
                }
            },
        };
        let r = PresentationSpec {
            name: self.name,
            first: self.first,
            rest: self.rest,
            arrangements,
            selected_arrangement: selected,
        };
        proof {
            assert(arrangements_sound(arrs, iv));
            assert(r@.1 == self@.1);
            assert(r@.2 == arrs);
            if r@.3 is Some {
                assert(r@.2[sel_idx].0 == r@.3->0);
            }
        }
        Ok(r)
    }

    /// The native presentation name.
    pub fn name(&self) -> (r: &str)
        ensures
            r@ == self@.0,
    {
        self.name.as_str()
    }

    /// The non-empty group sequence.
    pub fn groups(&self) -> (r: Vec<&GroupSpec>)
        ensures
            r.len() == self@.1.len(),
            forall|i: int| 0 <= i < r.len() ==> #[trigger] r[i]@ == self@.1[i],
    {
        let mut r: Vec<&GroupSpec> = Vec::new();
        r.push(&self.first);
        let mut i: usize = 0;
        while i < self.rest.len()
            invariant
                i <= self.rest.len(),
                r.len() == i + 1,
                r[0]@ == self.first@,
                forall|k: int| 0 <= k < i ==> #[trigger] r[k + 1]@ == self.rest@[k]@,
            decreases self.rest.len() - i,
        {
            r.push(&self.rest[i]);
            i += 1;
        }
        proof {
            assert forall|k: int| 0 <= k < r.len() implies #[trigger] r[k]@ == self@.1[k] by {
                if k > 0 {
                    assert(r[(k - 1) + 1]@ == self.rest@[k - 1]@);
                }
            }
        }
        r
    }

    /// The arrangements in exact serialized order.
    pub fn arrangements(&self) -> (r: &[ArrangementSpec])
        ensures
            arrangement_views(r@) == self@.2,
    {
        self.arrangements.as_slice()
    }

    /// The exact selected arrangement name, when one was declared.
    pub fn selected_arrangement(&self) -> (r: Option<&ArrangementName>)
        ensures
            match r {
                Some(n) => self@.3 == Some(n@),
                None => self@.3 is None,
            },
    {
        match &self.selected_arrangement {
            Some(n) => Some(n),
            None => None,
        }
    }
}

} // verus!
