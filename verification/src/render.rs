//! Binding semantic cue roles to the text elements of native template
//! slides, and recording where each role begins in operator order.
//!
//! A template slide's text elements are its slots. Named slots are
//! addressed by their trimmed native name, which must be unique. A role with
//! one implicit body field binds the slide's one meaningful text element:
//! every named slot and every unnamed slot with visible text counts, and an
//! empty unnamed helper element does not.
use vstd::prelude::*;
use crate::document::{PresentationSlide, SlideElement};
use crate::presentation_graph::{insert_ascending, strictly_ascending};
use crate::native_url::string_views;
use crate::presentation_spec::{CueRoleId, TextField, body_field};
use crate::rtf::extract::{rtf_plain_text, rtf_to_text};
use crate::text::{
    chars_eq, chars_of, string_from_utf8_lossy, string_of, trim, trim_chars, utf8_lossy, vec_views,
};

verus! {

/// Failure to inspect or bind native template text elements.
#[derive(Debug, PartialEq, Eq)]
pub enum TemplateSlotError {
    /// A native template contains the same named text element more than once.
    DuplicateNativeSlot {
        /// Duplicate native graphics-element name.
        name: String,
    },
    /// A native text element referenced by a role does not exist.
    UnknownNativeSlot {
        /// Missing native graphics-element name.
        name: String,
    },
    /// A single-field role cannot identify exactly one editable text element.
    AmbiguousDefaultSlot {
        /// Number of possible editable fields.
        count: usize,
    },
    /// A requested semantic field is not declared by its resolved role.
    UnknownSemanticField {
        /// Semantic cue role.
        role: String,
        /// Missing semantic field.
        field: String,
    },
    /// Two semantic fields target the same native text element.
    DuplicateNativeBinding {
        /// Semantic cue role.
        role: String,
        /// Reused native graphics-element name.
        slot: String,
    },
    /// One semantic field is declared more than once for a role.
    DuplicateSemanticBinding {
        /// Semantic cue role.
        role: String,
        /// Repeated semantic field.
        field: String,
    },
    /// A previously inspected native text element was not present while
    /// rendering the cloned slide.
    InvalidNativeSlot {
        /// Element index captured during template inspection.
        index: usize,
    },
}

// ---------------------------------------------------------------------------
// Native text slots
// ---------------------------------------------------------------------------

/// One text element of a template: trimmed name, element position, and
/// whether it shows visible text.
pub type SlotView = (Seq<char>, usize, bool);

/// Whether RTF bytes show any non-blank text.
pub open spec fn shows_text(rtf: Seq<u8>) -> bool {
    match rtf_plain_text(utf8_lossy(rtf)) {
        Some(t) => trim(t).len() > 0,
        None => false,
    }
}

/// The slot of element `e` at position `index`, when it is a text element.
pub open spec fn slot_of(e: SlideElement, index: int) -> Option<SlotView> {
    match e.element {
        Some(g) => match g.text {
            Some(t) => Some((trim(g.name@), index as usize, shows_text(t.rtf_data@))),
            None => None,
        },
        None => None,
    }
}

/// The text slots among the first `n` elements, in element order.
pub open spec fn element_slots(elements: Seq<SlideElement>, n: int) -> Seq<SlotView>
    decreases n,
{
    if n <= 0 {
        seq![]
    } else {
        element_slots(elements, n - 1) + match slot_of(elements[n - 1], n - 1) {
            Some(s) => seq![s],
            None => Seq::<SlotView>::empty(),
        }
    }
}

/// The text slots of a slide.
pub open spec fn slide_slots(slide: PresentationSlide) -> Seq<SlotView> {
    match slide.base_slide {
        Some(b) => element_slots(b.elements@, b.elements@.len() as int),
        None => seq![],
    }
}

/// Slot `j` carries a name that an earlier slot already carries.
#[verifier::opaque]
pub open spec fn repeats_name(slots: Seq<SlotView>, j: int) -> bool {
    slots[j].0.len() > 0 && exists|i: int| 0 <= i < j && #[trigger] slots[i].0 == slots[j].0
}

/// The first slot whose name repeats, if any.
#[verifier::opaque]
pub open spec fn first_repeated_name(slots: Seq<SlotView>) -> Option<int> {
    if exists|j: int| 0 <= j < slots.len() && repeats_name(slots, j) {
        Some(choose|j: int| 0 <= j < slots.len() && repeats_name(slots, j) && forall|k: int|
            0 <= k < j ==> !repeats_name(slots, k))
    } else {
        None
    }
}

/// The element positions of the named slots, in slot order.
pub open spec fn named_positions(slots: Seq<SlotView>) -> Seq<usize>
    decreases slots.len(),
{
    if slots.len() == 0 {
        seq![]
    } else {
        named_positions(slots.drop_last()) + if slots.last().0.len() > 0 {
            seq![slots.last().1]
        } else {
            Seq::<usize>::empty()
        }
    }
}

/// The element positions of the unnamed slots with visible text.
pub open spec fn visible_unnamed_positions(slots: Seq<SlotView>) -> Seq<usize>
    decreases slots.len(),
{
    if slots.len() == 0 {
        seq![]
    } else {
        visible_unnamed_positions(slots.drop_last()) + if slots.last().0.len() == 0
            && slots.last().2 {
            seq![slots.last().1]
        } else {
            Seq::<usize>::empty()
        }
    }
}

/// The meaningful candidates for an implicit body field: named slots, then
/// unnamed slots with visible text; when there are none, the slide's only
/// slot if it has exactly one.
pub open spec fn default_candidates_of(slots: Seq<SlotView>) -> Seq<usize> {
    let named = named_positions(slots);
    let visible = visible_unnamed_positions(slots);
    if named.len() > 0 || visible.len() > 0 {
        named + visible
    } else if slots.len() == 1 {
        seq![slots[0].1]
    } else {
        seq![]
    }
}

/// The position of the slot named `name`, if any.
pub open spec fn named_position(slots: Seq<SlotView>, name: Seq<char>) -> Option<usize> {
    if name.len() > 0 && exists|i: int| 0 <= i < slots.len() && #[trigger] slots[i].0 == name {
        Some(slots[choose|i: int| 0 <= i < slots.len() && #[trigger] slots[i].0 == name].1)
    } else {
        None
    }
}

proof fn lemma_first_repeated_is(slots: Seq<SlotView>, j: int)
    requires
        0 <= j < slots.len(),
        repeats_name(slots, j),
        forall|k: int| 0 <= k < j ==> !repeats_name(slots, k),
    ensures
        first_repeated_name(slots) == Some(j),
{
    reveal(first_repeated_name);
    let c = choose|c: int| 0 <= c < slots.len() && repeats_name(slots, c) && forall|k: int|
        0 <= k < c ==> !repeats_name(slots, k);
    assert(!(c < j));
    assert(!(c > j));
}

proof fn lemma_no_repeated(slots: Seq<SlotView>)
    requires
        forall|k: int| 0 <= k < slots.len() ==> !repeats_name(slots, k),
    ensures
        first_repeated_name(slots) is None,
{
    reveal(first_repeated_name);
}

proof fn lemma_names_unique(slots: Seq<SlotView>, a: int, b: int)
    requires
        first_repeated_name(slots) is None,
        0 <= a < slots.len(),
        0 <= b < slots.len(),
        slots[a].0 == slots[b].0,
        slots[a].0.len() > 0,
    ensures
        a == b,
{
    reveal(first_repeated_name);
    reveal(repeats_name);
    if a < b {
        assert(repeats_name(slots, b));
    } else if b < a {
        assert(repeats_name(slots, a));
    }
}

/// `e` reports the duplicate slot name `n`.
pub open spec fn is_duplicate_slot_error(e: TemplateSlotError, n: Seq<char>) -> bool {
    match e {
        TemplateSlotError::DuplicateNativeSlot { name } => name@ == n,
        _ => false,
    }
}

/// `e` reports the unknown slot name `n`.
pub open spec fn is_unknown_slot_error(e: TemplateSlotError, n: Seq<char>) -> bool {
    match e {
        TemplateSlotError::UnknownNativeSlot { name } => name@ == n,
        _ => false,
    }
}

struct NativeTextSlot {
    name: Vec<char>,
    index: usize,
    has_visible_text: bool,
}

spec fn slot_views(s: Seq<NativeTextSlot>) -> Seq<SlotView> {
    s.map_values(|x: NativeTextSlot| (x.name@, x.index, x.has_visible_text))
}

fn visible_text(rtf: &Vec<u8>) -> (r: bool)
    ensures
        r == shows_text(rtf@),
{
    let text = string_from_utf8_lossy(rtf.as_slice());
    match rtf_to_text(text.as_str()) {
        Some(t) => trim_chars(chars_of(t.as_str()).as_slice()).len() > 0,
        None => false,
    }
}

fn native_text_slots(slide: &PresentationSlide) -> (r: Vec<NativeTextSlot>)
    ensures
        slot_views(r@) == slide_slots(*slide),
        forall|k: int| 0 <= k < r.len() ==> #[trigger] r@[k].index < usize::MAX,
{
    let mut r: Vec<NativeTextSlot> = Vec::new();
    match &slide.base_slide {
        None => {
            proof {
                assert(slot_views(r@) =~= Seq::<SlotView>::empty());
            }
        },
        Some(b) => {
            let elements = &b.elements;
            let mut i: usize = 0;
            while i < elements.len()
                invariant
                    i <= elements.len(),
                    slot_views(r@) == element_slots(elements@, i as int),
                    forall|k: int| 0 <= k < r.len() ==> #[trigger] r@[k].index < i,
                decreases elements.len() - i,
            {
                let ghost before = r@;
                match &elements[i].element {
                    Some(g) => match &g.text {
                        Some(t) => {
                            let name = trim_chars(chars_of(g.name.as_str()).as_slice());
                            let visible = visible_text(&t.rtf_data);
                            r.push(NativeTextSlot { name, index: i, has_visible_text: visible });
                            proof {
                                assert(slot_views(r@) =~= slot_views(before).push(
                                    (trim(g.name@), i, shows_text(t.rtf_data@)),
                                ));
                            }
                        },
                        None => {},
                    },
                    None => {},
                }
                proof {
                    assert(slot_views(r@) =~= element_slots(elements@, i + 1));
                }
                i += 1;
            }
        },
    }
    r
}

// ---------------------------------------------------------------------------
// Slide templates
// ---------------------------------------------------------------------------

/// An inspected native slide template with deterministic named text slots.
pub struct SlideTemplate<'a> {
    slide: &'a PresentationSlide,
    text_slots: Vec<NativeTextSlot>,
}

impl<'a> SlideTemplate<'a> {
    /// The slots are those of the slide, and names are unique.
    #[verifier::type_invariant]
    spec fn slots_match(self) -> bool {
        &&& slot_views(self.text_slots@) == slide_slots(*self.slide)
        &&& first_repeated_name(slide_slots(*self.slide)) is None
    }

    /// The inspected slide.
    pub closed spec fn source(self) -> PresentationSlide {
        *self.slide
    }

    /// Inspects one native slide without choosing which fields a role may
    /// edit. Fails on the first text element whose name repeats an earlier
    /// one.
    pub fn inspect(slide: &'a PresentationSlide) -> (r: Result<Self, TemplateSlotError>)
        ensures
            match r {
                Ok(t) => t.source() == *slide && first_repeated_name(slide_slots(*slide)) is None,
                Err(e) => match first_repeated_name(slide_slots(*slide)) {
                    Some(j) => is_duplicate_slot_error(e, slide_slots(*slide)[j].0),
                    None => false,
                },
            },
    {
        let text_slots = native_text_slots(slide);
        let ghost sv = slide_slots(*slide);
        let mut j: usize = 0;
        while j < text_slots.len()
            invariant
                j <= text_slots.len(),
                slot_views(text_slots@) == sv,
                sv == slide_slots(*slide),
                forall|k: int| 0 <= k < j ==> !repeats_name(sv, k),
            decreases text_slots.len() - j,
        {
            let name = &text_slots[j].name;
            proof {
                assert(sv[j as int].0 == name@);
            }
            if name.len() > 0 {
                let mut i: usize = 0;
                while i < j
                    invariant
                        i <= j < text_slots.len(),
                        slot_views(text_slots@) == sv,
                        sv == slide_slots(*slide),
                        sv[j as int].0 == name@,
                        name@.len() > 0,
                        forall|k: int| 0 <= k < j ==> !repeats_name(sv, k),
                        forall|k: int| 0 <= k < i ==> #[trigger] sv[k].0 != name@,
                    decreases j - i,
                {
                    proof {
                        assert(sv[i as int].0 == text_slots@[i as int].name@);
                    }
                    if chars_eq(text_slots[i].name.as_slice(), name.as_slice()) {
                        proof {
                            reveal(repeats_name);
                            assert(sv[i as int].0 == sv[j as int].0);
                            assert(repeats_name(sv, j as int));
                            lemma_first_repeated_is(sv, j as int);
                        }
                        let e = TemplateSlotError::DuplicateNativeSlot { name: string_of(name.as_slice()) };
                        proof {
                            assert(is_duplicate_slot_error(e, sv[j as int].0));
                        }
                        return Err(e);
                    }
                    i += 1;
                }
                proof {
                    reveal(repeats_name);
                    assert(!repeats_name(sv, j as int));
                }
            } else {
                proof {
                    reveal(repeats_name);
                    assert(!repeats_name(sv, j as int));
                }
            }
            j += 1;
        }
        proof {
            lemma_no_repeated(sv);
        }
        Ok(SlideTemplate { slide, text_slots })
    }

    /// The original native slide.
    pub fn slide(&self) -> (s: &'a PresentationSlide)
        ensures
            *s == self.source(),
    {
        self.slide
    }

    /// Every uniquely addressable native slot name, ascending.
    pub fn named_slots(&self) -> (r: Vec<String>)
        ensures
            strictly_ascending(string_views(r@)),
            forall|n: Seq<char>|
                #![trigger string_views(r@).contains(n)]
                string_views(r@).contains(n) <==> named_position(slide_slots(self.source()), n)
                    is Some,
    {
        proof {
            use_type_invariant(self);
        }
        let ghost sv = slide_slots(*self.slide);
        let mut d: Vec<Vec<char>> = Vec::new();
        let mut j: usize = 0;
        while j < self.text_slots.len()
            invariant
                j <= self.text_slots.len(),
                slot_views(self.text_slots@) == sv,
                first_repeated_name(sv) is None,
                strictly_ascending(vec_views(d@)),
                forall|n: Seq<char>|
                    #![trigger vec_views(d@).contains(n)]
                    vec_views(d@).contains(n) <==> (n.len() > 0 && exists|i: int|
                        0 <= i < j && #[trigger] sv[i].0 == n),
            decreases self.text_slots.len() - j,
        {
            let name = &self.text_slots[j].name;
            proof {
                assert(sv[j as int].0 == name@);
            }
            if name.len() > 0 {
                proof {
                    if vec_views(d@).contains(name@) {
                        let i = choose|i: int| 0 <= i < j && #[trigger] sv[i].0 == name@;
                        lemma_names_unique(sv, i, j as int);
                    }
                }
                insert_ascending(&mut d, name.clone());
            }
            proof {
                assert forall|n: Seq<char>|
                    vec_views(d@).contains(n) <==> (n.len() > 0 && exists|i: int|
                        0 <= i < j + 1 && #[trigger] sv[i].0 == n) by {
                    if n.len() > 0 && sv[j as int].0 == n {
                        assert(sv[j as int].0 == n);
                    }
                }
            }
            j += 1;
        }
        let mut r: Vec<String> = Vec::new();
        let mut k: usize = 0;
        while k < d.len()
            invariant
                k <= d.len(),
                string_views(r@) == vec_views(d@).take(k as int),
            decreases d.len() - k,
        {
            let ghost before = r@;
            r.push(string_of(d[k].as_slice()));
            proof {
                assert(string_views(r@) =~= string_views(before).push(d@[k as int]@));
                assert(vec_views(d@).take(k + 1) =~= vec_views(d@).take(k as int).push(d@[k as int]@));
            }
            k += 1;
        }
        proof {
            assert(vec_views(d@).take(k as int) =~= vec_views(d@));
            assert forall|n: Seq<char>|
                #![trigger string_views(r@).contains(n)]
                string_views(r@).contains(n) <==> named_position(sv, n) is Some by {
                if n.len() > 0 && exists|i: int| 0 <= i < sv.len() && #[trigger] sv[i].0 == n {
                    let i = choose|i: int| 0 <= i < sv.len() && #[trigger] sv[i].0 == n;
                    assert(sv[i].0 == n);
                }
            }
        }
        r
    }

    /// The meaningful candidates for an implicit body field.
    fn default_candidates(&self) -> (r: Vec<usize>)
        ensures
            r@ == default_candidates_of(slide_slots(self.source())),
    {
        proof {
            use_type_invariant(self);
        }
        let ghost sv = slide_slots(*self.slide);
        let mut named: Vec<usize> = Vec::new();
        let mut visible: Vec<usize> = Vec::new();
        let mut j: usize = 0;
        while j < self.text_slots.len()
            invariant
                j <= self.text_slots.len(),
                slot_views(self.text_slots@) == sv,
                named@ == named_positions(sv.take(j as int)),
                visible@ == visible_unnamed_positions(sv.take(j as int)),
            decreases self.text_slots.len() - j,
        {
            let slot = &self.text_slots[j];
            proof {
                assert(sv.take(j + 1).drop_last() =~= sv.take(j as int));
                assert(sv.take(j + 1).last() == (slot.name@, slot.index, slot.has_visible_text));
            }
            if slot.name.len() > 0 {
                named.push(slot.index);
            } else if slot.has_visible_text {
                visible.push(slot.index);
            }
            proof {
                assert(named@ =~= named_positions(sv.take(j + 1)));
                assert(visible@ =~= visible_unnamed_positions(sv.take(j + 1)));
            }
            j += 1;
        }
        proof {
            assert(sv.take(j as int) =~= sv);
        }
        if named.len() > 0 || visible.len() > 0 {
            let mut all = named;
            let mut rest = visible;
            all.append(&mut rest);
            all
        } else if self.text_slots.len() == 1 {
            proof {
                assert(sv[0].1 == self.text_slots@[0].index);
            }
            let mut v: Vec<usize> = Vec::new();
            v.push(self.text_slots[0].index);
            v
        } else {
            Vec::new()
        }
    }

    /// The number of meaningful candidates for an implicit body field.
    pub fn default_candidate_count(&self) -> (n: usize)
        ensures
            n == default_candidates_of(slide_slots(self.source())).len(),
    {
        self.default_candidates().len()
    }

    /// The one meaningful candidate for an implicit body field.
    pub fn default_slot(&self) -> (r: Result<usize, TemplateSlotError>)
        ensures
            ({
                let c = default_candidates_of(slide_slots(self.source()));
                if c.len() == 1 {
                    r == Ok::<usize, TemplateSlotError>(c[0])
                } else {
                    r == Err::<usize, TemplateSlotError>(
                        TemplateSlotError::AmbiguousDefaultSlot { count: c.len() as usize },
                    )
                }
            }),
    {
        let c = self.default_candidates();
        if c.len() == 1 {
            Ok(c[0])
        } else {
            Err(TemplateSlotError::AmbiguousDefaultSlot { count: c.len() })
        }
    }

    /// The element position of the slot named exactly `name`.
    pub fn named_index(&self, name: &str) -> (r: Result<usize, TemplateSlotError>)
        ensures
            match named_position(slide_slots(self.source()), name@) {
                Some(i) => r == Ok::<usize, TemplateSlotError>(i),
                None => r matches Err(e) && is_unknown_slot_error(e, name@),
            },
    {
        proof {
            use_type_invariant(self);
        }
        let ghost sv = slide_slots(*self.slide);
        let n = chars_of(name);
        if n.len() > 0 {
            let mut j: usize = 0;
            while j < self.text_slots.len()
                invariant
                    j <= self.text_slots.len(),
                    slot_views(self.text_slots@) == sv,
                    sv == slide_slots(*self.slide),
                    first_repeated_name(sv) is None,
                    n@ == name@,
                    n.len() > 0,
                    forall|k: int| 0 <= k < j ==> #[trigger] sv[k].0 != name@,
                decreases self.text_slots.len() - j,
            {
                proof {
                    assert(sv[j as int].0 == self.text_slots@[j as int].name@);
                }
                if chars_eq(self.text_slots[j].name.as_slice(), n.as_slice()) {
                    proof {
                        let c = choose|i: int| 0 <= i < sv.len() && #[trigger] sv[i].0 == name@;
                        lemma_names_unique(sv, c, j as int);
                    }
                    return Ok(self.text_slots[j].index);
                }
                j += 1;
            }
        }
        let e = TemplateSlotError::UnknownNativeSlot { name: name.to_string() };
        proof {
            assert(is_unknown_slot_error(e, name@));
        }
        Err(e)
    }
}


// ---------------------------------------------------------------------------
// Resolved cue roles
// ---------------------------------------------------------------------------

/// One requested binding: semantic field and native slot name.
pub type BindingRequest = (Seq<char>, Seq<char>);

/// Binding `k` names a field that an earlier binding already names.
pub open spec fn repeats_field(l: Seq<BindingRequest>, k: int) -> bool {
    exists|i: int| 0 <= i < k && #[trigger] l[i].0 == l[k].0
}

/// Binding `k` names a native slot that an earlier binding already names.
pub open spec fn repeats_slot(l: Seq<BindingRequest>, k: int) -> bool {
    exists|i: int| 0 <= i < k && #[trigger] l[i].1 == l[k].1
}

/// Binding `k` cannot be made.
pub open spec fn binding_fails(slots: Seq<SlotView>, l: Seq<BindingRequest>, k: int) -> bool {
    repeats_field(l, k) || repeats_slot(l, k) || named_position(slots, l[k].1) is None
}

/// The error reported for the failing binding `k` of `role`.
pub open spec fn binding_error(
    role: Seq<char>,
    slots: Seq<SlotView>,
    l: Seq<BindingRequest>,
    k: int,
    e: TemplateSlotError,
) -> bool {
    if repeats_field(l, k) {
        match e {
            TemplateSlotError::DuplicateSemanticBinding { role: r, field: f } => r@ == role && f@ == l[k].0,
            _ => false,
        }
    } else if repeats_slot(l, k) {
        match e {
            TemplateSlotError::DuplicateNativeBinding { role: r, slot: n } => r@ == role && n@ == l[k].1,
            _ => false,
        }
    } else {
        is_unknown_slot_error(e, l[k].1)
    }
}

/// `e` reports that `role` has no field `field`.
pub open spec fn is_unknown_field_error(e: TemplateSlotError, role: Seq<char>, field: Seq<char>) -> bool {
    match e {
        TemplateSlotError::UnknownSemanticField { role: r, field: f } => r@ == role && f@ == field,
        _ => false,
    }
}

/// The bound slot positions, field by field.
pub open spec fn bound_fields(slots: Seq<SlotView>, l: Seq<BindingRequest>) -> Seq<(Seq<char>, usize)> {
    l.map_values(|b: BindingRequest| (b.0, named_position(slots, b.1)->0))
}

/// The views of a run of field bindings.
pub open spec fn field_views(f: Seq<(TextField, usize)>) -> Seq<(Seq<char>, usize)> {
    f.map_values(|b: (TextField, usize)| (b.0@, b.1))
}

/// One semantic cue role resolved to a native slide and editable fields.
pub struct ResolvedCueRole<'a> {
    id: CueRoleId,
    template: SlideTemplate<'a>,
    fields: Vec<(TextField, usize)>,
}

impl<'a> ResolvedCueRole<'a> {
    /// The role's identity.
    pub closed spec fn role_id(self) -> Seq<char> {
        self.id@
    }

    /// The role's slide.
    pub closed spec fn source(self) -> PresentationSlide {
        self.template.source()
    }

    /// The bound fields and the element positions they edit, in binding
    /// order.
    pub closed spec fn bindings(self) -> Seq<(Seq<char>, usize)> {
        field_views(self.fields@)
    }

    /// Resolves a conventional `body` role from exactly one meaningful
    /// field; empty unnamed helper elements do not count.
    pub fn body(id: CueRoleId, slide: &'a PresentationSlide) -> (r: Result<Self, TemplateSlotError>)
        ensures
            ({
                let sv = slide_slots(*slide);
                let c = default_candidates_of(sv);
                match first_repeated_name(sv) {
                    Some(j) => r matches Err(e) && is_duplicate_slot_error(e, sv[j].0),
                    None => if c.len() == 1 {
                        r matches Ok(role) && role.role_id() == id@ && role.source() == *slide
                            && role.bindings() == seq![(body_field(), c[0])]
                    } else {
                        r matches Err(e) && e == TemplateSlotError::AmbiguousDefaultSlot {
                            count: c.len() as usize,
                        }
                    },
                }
            }),
    {
        let template = match SlideTemplate::inspect(slide) {
            Ok(t) => t,
            Err(e) => return Err(e),
        };
        let index = match template.default_slot() {
            Ok(i) => i,
            Err(e) => return Err(e),
        };
        let mut fields: Vec<(TextField, usize)> = Vec::new();
        fields.push((TextField::body(), index));
        let role = ResolvedCueRole { id, template, fields };
        proof {
            assert(role.bindings() =~= seq![(body_field(), index)]);
        }
        Ok(role)
    }

    /// Resolves explicit semantic fields to exact native slot names, in
    /// order: each binding must name a new field and a new slot, and the
    /// slot must exist.
    pub fn with_slots(
        id: CueRoleId,
        slide: &'a PresentationSlide,
        first: (TextField, &str),
        rest: Vec<(TextField, &str)>,
    ) -> (r: Result<Self, TemplateSlotError>)
        ensures
            ({
                let sv = slide_slots(*slide);
                let l = seq![(first.0@, first.1@)] + rest@.map_values(
                    |b: (TextField, &str)| (b.0@, b.1@),
                );
                match first_repeated_name(sv) {
                    Some(j) => r matches Err(e) && is_duplicate_slot_error(e, sv[j].0),
                    None => match r {
                        Ok(role) => role.role_id() == id@ && role.source() == *slide && (forall|k: int|
                            0 <= k < l.len() ==> !binding_fails(sv, l, k)) && role.bindings()
                            == bound_fields(sv, l),
                        Err(e) => exists|k: int|
                            0 <= k < l.len() && binding_fails(sv, l, k) && (forall|i: int|
                                0 <= i < k ==> !binding_fails(sv, l, i)) && binding_error(
                                id@,
                                sv,
                                l,
                                k,
                                e,
                            ),
                    },
                }
            }),
    {
        let template = match SlideTemplate::inspect(slide) {
            Ok(t) => t,
            Err(e) => return Err(e),
        };
        let ghost sv = slide_slots(*slide);
        let ghost l = seq![(first.0@, first.1@)] + rest@.map_values(
            |b: (TextField, &str)| (b.0@, b.1@),
        );
        let mut requests: Vec<(TextField, &str)> = Vec::new();
        requests.push(first);
        let mut rest = rest;
        requests.append(&mut rest);
        assert(requests@.map_values(|b: (TextField, &str)| (b.0@, b.1@)) =~= l);
        let mut fields: Vec<(TextField, usize)> = Vec::new();
        let mut names: Vec<Vec<char>> = Vec::new();
        let mut failure: Option<TemplateSlotError> = None;
        let mut k: usize = 0;
        while k < requests.len() && failure.is_none()
            invariant
                k <= requests.len(),
                requests@.map_values(|b: (TextField, &str)| (b.0@, b.1@)) == l,
                template.source() == *slide,
                sv == slide_slots(*slide),
                first_repeated_name(sv) is None,
                forall|i: int| 0 <= i < k ==> !binding_fails(sv, l, i),
                field_views(fields@) == bound_fields(sv, l.take(k as int)),
                vec_views(names@) == l.take(k as int).map_values(|b: BindingRequest| b.1),
                fields.len() == k,
                names.len() == k,
                l.len() == requests.len(),
                match failure {
                    Some(e) => k < l.len() && binding_fails(sv, l, k as int) && binding_error(
                        id@,
                        sv,
                        l,
                        k as int,
                        e,
                    ),
                    None => true,
                },
            decreases 2 * (requests.len() - k) + if failure is None {
                1int
            } else {
                0int
            },
        {
            let field = &requests[k].0;
            let native = requests[k].1;
            proof {
                assert(l[k as int] == (field@, native@));
            }
            let fv = chars_of(field.as_str());
            let mut dup_field = false;
            let mut i: usize = 0;
            while i < k
                invariant
                    i <= k < requests.len(),
                    l[k as int] == (field@, native@),
                    fv@ == field@,
                    field_views(fields@) == bound_fields(sv, l.take(k as int)),
                    fields.len() == k,
                    l.len() == requests.len(),
                    dup_field == exists|q: int| 0 <= q < i && #[trigger] l[q].0 == l[k as int].0,
                decreases k - i,
            {
                proof {
                    assert(field_views(fields@)[i as int] == bound_fields(sv, l.take(k as int))[i as int]);
                    assert(fields@[i as int].0@ == l[i as int].0);
                }
                if chars_eq(chars_of(fields[i].0.as_str()).as_slice(), fv.as_slice()) {
                    dup_field = true;
                }
                i += 1;
            }
            if dup_field {
                let e = TemplateSlotError::DuplicateSemanticBinding {
                    role: id.as_str().to_string(),
                    field: field.as_str().to_string(),
                };
                proof {
                    assert(repeats_field(l, k as int));
                    assert(binding_error(id@, sv, l, k as int, e));
                }
                failure = Some(e);
            } else {
                let nv = chars_of(native);
                let mut dup_slot = false;
                let mut q: usize = 0;
                while q < k
                    invariant
                        q <= k < requests.len(),
                        l[k as int] == (field@, native@),
                        nv@ == native@,
                        vec_views(names@) == l.take(k as int).map_values(|b: BindingRequest| b.1),
                        names.len() == k,
                        l.len() == requests.len(),
                        dup_slot == exists|x: int| 0 <= x < q && #[trigger] l[x].1 == l[k as int].1,
                    decreases k - q,
                {
                    proof {
                        assert(vec_views(names@)[q as int] == l[q as int].1);
                    }
                    if chars_eq(names[q].as_slice(), nv.as_slice()) {
                        dup_slot = true;
                    }
                    q += 1;
                }
                if dup_slot {
                    let e = TemplateSlotError::DuplicateNativeBinding {
                        role: id.as_str().to_string(),
                        slot: native.to_string(),
                    };
                    proof {
                        assert(!repeats_field(l, k as int));
                        assert(repeats_slot(l, k as int));
                        assert(binding_error(id@, sv, l, k as int, e));
                    }
                    failure = Some(e);
                } else {
                    proof {
                        assert(!repeats_field(l, k as int));
                        assert(!repeats_slot(l, k as int));
                    }
                    match template.named_index(native) {
                        Ok(index) => {
                            let ghost before = fields@;
                            fields.push((field.clone(), index));
                            let ghost names_before = names@;
                            names.push(nv);
                            proof {
                                assert(field_views(fields@) =~= field_views(before).push((field@, index)));
                                assert(bound_fields(sv, l.take(k + 1)) =~= bound_fields(
                                    sv,
                                    l.take(k as int),
                                ).push((field@, index)));
                                assert(vec_views(names@) =~= vec_views(names_before).push(native@));
                                assert(l.take(k + 1).map_values(|b: BindingRequest| b.1) =~= l.take(
                                    k as int,
                                ).map_values(|b: BindingRequest| b.1).push(native@));
                            }
                            k += 1;
                        },
                        Err(e) => {
                            proof {
                                assert(binding_error(id@, sv, l, k as int, e));
                            }
                            failure = Some(e);
                        },
                    }
                }
            }
        }
        match failure {
            Some(e) => {
                proof {
                    assert(binding_fails(sv, l, k as int));
                }
                Err(e)
            },
            None => {
                proof {
                    assert(l.take(k as int) =~= l);
                }
                Ok(ResolvedCueRole { id, template, fields })
            },
        }
    }

    /// Resolves a role that keeps a template without editable text fields.
    pub fn static_slide(id: CueRoleId, slide: &'a PresentationSlide) -> (r: Result<
        Self,
        TemplateSlotError,
    >)
        ensures
            ({
                let sv = slide_slots(*slide);
                match first_repeated_name(sv) {
                    Some(j) => r matches Err(e) && is_duplicate_slot_error(e, sv[j].0),
                    None => r matches Ok(role) && role.role_id() == id@ && role.source() == *slide
                        && role.bindings() == Seq::<(Seq<char>, usize)>::empty(),
                }
            }),
    {
        let template = match SlideTemplate::inspect(slide) {
            Ok(t) => t,
            Err(e) => return Err(e),
        };
        let role = ResolvedCueRole { id, template, fields: Vec::new() };
        proof {
            assert(role.bindings() =~= Seq::<(Seq<char>, usize)>::empty());
        }
        Ok(role)
    }

    /// The semantic role identity.
    pub fn id(&self) -> (r: &CueRoleId)
        ensures
            r@ == self.role_id(),
    {
        &self.id
    }

    /// The immutable native slide used by this role.
    pub fn slide(&self) -> (s: &'a PresentationSlide)
        ensures
            *s == self.source(),
    {
        self.template.slide()
    }

    /// The element position the field edits.
    pub fn field_index(&self, field: &TextField) -> (r: Result<usize, TemplateSlotError>)
        ensures
            match r {
                Ok(i) => exists|k: int|
                    0 <= k < self.bindings().len() && self.bindings()[k] == (field@, i) && forall|q: int|
                        0 <= q < k ==> #[trigger] self.bindings()[q].0 != field@,
                Err(e) => (forall|k: int| 0 <= k < self.bindings().len() ==> #[trigger] self.bindings()[k].0 != field@)
                    && is_unknown_field_error(e, self.role_id(), field@),
            },
    {
        let ghost b = self.bindings();
        let f = chars_of(field.as_str());
        let mut k: usize = 0;
        while k < self.fields.len()
            invariant
                k <= self.fields.len(),
                b == field_views(self.fields@),
                b == self.bindings(),
                f@ == field@,
                forall|q: int| 0 <= q < k ==> #[trigger] b[q].0 != field@,
            decreases self.fields.len() - k,
        {
            proof {
                assert(b[k as int] == (self.fields@[k as int].0@, self.fields@[k as int].1));
            }
            if chars_eq(chars_of(self.fields[k].0.as_str()).as_slice(), f.as_slice()) {
                proof {
                    assert(b[k as int] == (field@, self.fields@[k as int].1));
                }
                return Ok(self.fields[k].1);
            }
            k += 1;
        }
        let e = TemplateSlotError::UnknownSemanticField {
            role: self.id.as_str().to_string(),
            field: field.as_str().to_string(),
        };
        proof {
            assert(is_unknown_field_error(e, self.role_id(), field@));
        }
        Err(e)
    }
}


// ---------------------------------------------------------------------------
// Render errors
// ---------------------------------------------------------------------------

/// Failure to clone a native theme slide into an independent cue-local
/// graph.
#[derive(Debug, PartialEq, Eq)]
pub enum SlideInstantiationError {
    /// A rendered presentation slide has no local slide graph.
    MissingBaseSlide,
    /// A rendered local object has no stable native UUID.
    MissingIdentity {
        /// Local object missing its identity.
        kind: &'static str,
    },
    /// One source UUID identifies more than one local slide object.
    DuplicateIdentity {
        /// Reused source UUID.
        uuid: String,
        /// First local object carrying the UUID.
        first_kind: &'static str,
        /// Later local object carrying the same UUID.
        duplicate_kind: &'static str,
    },
    /// A local reference does not resolve inside the source slide graph.
    DanglingReference {
        /// Native relationship containing the unresolved UUID.
        relation: &'static str,
        /// Unresolved source UUID.
        uuid: String,
    },
    /// A build is present without a graphics element that can own it.
    BuildWithoutElement {
        /// Native build field missing its owner.
        build_kind: &'static str,
    },
}

/// Failure to render a checked presentation specification.
#[derive(Debug, PartialEq, Eq)]
pub enum RenderError {
    /// Two resolved roles share one semantic identity.
    DuplicateRole {
        /// Duplicate role identity.
        role: String,
    },
    /// A cue references a role absent from the reviewed render assets.
    MissingRole {
        /// Missing role identity.
        role: String,
    },
    /// A named cue group is absent from the installed group catalog.
    MissingGroup {
        /// Missing exact installed group name.
        group: String,
    },
    /// A checked arrangement group was not emitted by the renderer.
    MissingRenderedGroup {
        /// Arrangement containing the reference.
        arrangement: String,
        /// Missing semantic group identity.
        group: String,
    },
    /// The checked selected arrangement was not emitted by the renderer.
    MissingRenderedArrangement {
        /// Missing exact arrangement name.
        arrangement: String,
    },
    /// A checked group identity was emitted more than once.
    DuplicateRenderedGroup {
        /// Repeated semantic group identity.
        group: String,
    },
    /// Operator traversal referenced a cue without rendered role metadata.
    MissingRenderedCueRole {
        /// Cue index in operator order.
        index: usize,
        /// Number of rendered cues with semantic role metadata.
        cue_count: usize,
    },
    /// A post-render transform changed cue identity, count, or order while
    /// semantic role indexes were still live.
    RoleCueSequenceChanged,
    /// A post-render transform changed operator traversal while semantic
    /// role indexes were still live.
    RoleOperatorTraversalChanged,
    /// A post-render transform changed text whose native fit evidence is
    /// live.
    MeasuredCueTextChanged {
        /// Cue whose retained native measurement became stale.
        cue_index: usize,
    },
    /// A post-render transform changed measured native geometry or styling.
    MeasuredCueLayoutChanged {
        /// Cue whose retained native measurement became stale.
        cue_index: usize,
    },
    /// A post-measurement transform changed the macro selecting an audience
    /// destination.
    MeasuredCueDestinationChanged {
        /// Cue whose retained destination evidence became stale.
        cue_index: usize,
    },
    /// Native fit evidence referenced a cue absent from the document.
    TextFitEvidenceCueUnavailable {
        /// Invalid rendered cue index.
        cue_index: usize,
    },
    /// Native layout evidence repeats or reorders a cue identity.
    InvalidTextFitEvidenceOrder,
    /// A measured text cue has no rendering destination evidence.
    MissingTextFitDestinationEvidence {
        /// Cue missing its destination proof.
        cue_index: usize,
    },
    /// A template field could not be inspected or bound.
    Template(TemplateSlotError),
    /// A theme slide could not be cloned into an independent native graph.
    SlideInstantiation(SlideInstantiationError),
}

// ---------------------------------------------------------------------------
// Render assets
// ---------------------------------------------------------------------------

/// The identities of a run of roles.
pub open spec fn role_ids(roles: Seq<ResolvedCueRole>) -> Seq<Seq<char>> {
    roles.map_values(|r: ResolvedCueRole| r.role_id())
}

/// Role `k` repeats an earlier identity.
pub open spec fn repeats_role(ids: Seq<Seq<char>>, k: int) -> bool {
    exists|i: int| 0 <= i < k && #[trigger] ids[i] == ids[k]
}

/// `e` reports the duplicate role `role`.
pub open spec fn is_duplicate_role_error(e: RenderError, role: Seq<char>) -> bool {
    match e {
        RenderError::DuplicateRole { role: r } => r@ == role,
        _ => false,
    }
}

/// `e` reports the missing role `role`.
pub open spec fn is_missing_role_error(e: RenderError, role: Seq<char>) -> bool {
    match e {
        RenderError::MissingRole { role: r } => r@ == role,
        _ => false,
    }
}

/// Immutable native assets used by one render.
pub struct RenderAssets<'a> {
    roles: Vec<ResolvedCueRole<'a>>,
}

impl<'a> RenderAssets<'a> {
    /// Role identities are unique.
    #[verifier::type_invariant]
    spec fn unique_roles(self) -> bool {
        forall|k: int| 0 <= k < self.roles@.len() ==> !repeats_role(role_ids(self.roles@), k)
    }

    /// The roles, in the order given.
    pub closed spec fn roles(self) -> Seq<ResolvedCueRole<'a>> {
        self.roles@
    }

    /// Builds an asset set with unique semantic role identities; the first
    /// repeated identity is reported.
    pub fn new(first: ResolvedCueRole<'a>, rest: Vec<ResolvedCueRole<'a>>) -> (r: Result<
        Self,
        RenderError,
    >)
        ensures
            ({
                let all = seq![first] + rest@;
                let ids = role_ids(all);
                match r {
                    Ok(a) => a.roles() == all && forall|k: int| 0 <= k < all.len() ==> !repeats_role(ids, k),
                    Err(e) => exists|k: int|
                        0 < k < all.len() && repeats_role(ids, k) && (forall|i: int|
                            0 <= i < k ==> !repeats_role(ids, i)) && is_duplicate_role_error(e, ids[k]),
                }
            }),
    {
        let ghost all = seq![first] + rest@;
        let ghost ids = role_ids(all);
        let mut roles: Vec<ResolvedCueRole<'a>> = Vec::new();
        roles.push(first);
        let mut rest = rest;
        roles.append(&mut rest);
        assert(roles@ =~= all);
        let mut failure: Option<RenderError> = None;
        let mut k: usize = 0;
        while k < roles.len() && failure.is_none()
            invariant
                k <= roles.len(),
                roles@ == all,
                ids == role_ids(all),
                forall|x: int| 0 <= x < k ==> !repeats_role(ids, x),
                match failure {
                    Some(e) => 0 < k < all.len() && repeats_role(ids, k as int) && is_duplicate_role_error(
                        e,
                        ids[k as int],
                    ),
                    None => true,
                },
            decreases 2 * (roles.len() - k) + if failure is None {
                1int
            } else {
                0int
            },
        {
            let mut dup = false;
            let mut i: usize = 0;
            while i < k
                invariant
                    i <= k < roles.len(),
                    roles@ == all,
                    ids == role_ids(all),
                    dup == exists|q: int| 0 <= q < i && #[trigger] ids[q] == ids[k as int],
                decreases k - i,
            {
                proof {
                    assert(ids[i as int] == roles@[i as int].role_id());
                    assert(ids[k as int] == roles@[k as int].role_id());
                }
                if chars_eq(
                    chars_of(roles[i].id().as_str()).as_slice(),
                    chars_of(roles[k].id().as_str()).as_slice(),
                ) {
                    dup = true;
                }
                i += 1;
            }
            if dup {
                let e = RenderError::DuplicateRole { role: roles[k].id().as_str().to_string() };
                proof {
                    assert(repeats_role(ids, k as int));
                    assert(ids[k as int] == roles@[k as int].role_id());
                    assert(is_duplicate_role_error(e, ids[k as int]));
                }
                failure = Some(e);
            } else {
                k += 1;
            }
        }
        if let Some(e) = failure {
            return Err(e);
        }
        Ok(RenderAssets { roles })
    }

    /// The role with the given identity.
    pub fn role(&self, id: &CueRoleId) -> (r: Result<&ResolvedCueRole<'a>, RenderError>)
        ensures
            match r {
                Ok(role) => role.role_id() == id@ && self.roles().contains(*role),
                Err(e) => (forall|k: int| 0 <= k < self.roles().len() ==> #[trigger] self.roles()[k].role_id() != id@)
                    && is_missing_role_error(e, id@),
            },
    {
        let want = chars_of(id.as_str());
        let mut k: usize = 0;
        while k < self.roles.len()
            invariant
                k <= self.roles.len(),
                want@ == id@,
                forall|q: int| 0 <= q < k ==> #[trigger] self.roles@[q].role_id() != id@,
            decreases self.roles.len() - k,
        {
            if chars_eq(chars_of(self.roles[k].id().as_str()).as_slice(), want.as_slice()) {
                proof {
                    assert(self.roles@[k as int] == self.roles@[k as int]);
                    assert(self.roles@.contains(self.roles@[k as int]));
                }
                return Ok(&self.roles[k]);
            }
            k += 1;
        }
        Err(RenderError::MissingRole { role: id.as_str().to_string() })
    }
}

// ---------------------------------------------------------------------------
// Role transitions
// ---------------------------------------------------------------------------

/// One semantic role transition at a concrete cue index.
#[derive(Debug, PartialEq, Eq)]
pub struct RoleTransition {
    cue_index: usize,
    role: CueRoleId,
}

impl RoleTransition {
    /// The transition as plain values.
    pub closed spec fn view_pair(self) -> (usize, Seq<char>) {
        (self.cue_index, self.role@)
    }

    /// The zero-based cue index where the role begins.
    pub fn cue_index(&self) -> (i: usize)
        ensures
            i == self.view_pair().0,
    {
        self.cue_index
    }

    /// The role entered at this cue.
    pub fn role(&self) -> (r: &CueRoleId)
        ensures
            r@ == self.view_pair().1,
    {
        &self.role
    }
}

/// The plain values of a run of transitions.
pub open spec fn transition_views(t: Seq<RoleTransition>) -> Seq<(usize, Seq<char>)> {
    t.map_values(|x: RoleTransition| x.view_pair())
}

/// Transitions after the operator reaches cue `i` of role `role`: a new
/// transition unless the role is the one already active.
pub open spec fn recorded(ts: Seq<(usize, Seq<char>)>, i: usize, role: Seq<char>) -> Seq<(usize, Seq<char>)> {
    if ts.len() > 0 && ts.last().1 == role {
        ts
    } else {
        ts.push((i, role))
    }
}

/// The transitions of the first `n` steps of an operator traversal.
pub open spec fn operator_transitions(order: Seq<usize>, roles: Seq<Seq<char>>, n: int) -> Seq<
    (usize, Seq<char>),
>
    decreases n,
{
    if n <= 0 {
        seq![]
    } else {
        recorded(operator_transitions(order, roles, n - 1), order[n - 1], roles[order[n - 1] as int])
    }
}

/// The cue indexes where `role` begins, each once, in transition order.
pub open spec fn entries_of(ts: Seq<(usize, Seq<char>)>, role: Seq<char>) -> Seq<usize>
    decreases ts.len(),
{
    if ts.len() == 0 {
        seq![]
    } else {
        let p = entries_of(ts.drop_last(), role);
        if ts.last().1 == role && !p.contains(ts.last().0) {
            p.push(ts.last().0)
        } else {
            p
        }
    }
}

/// No two consecutive transitions enter the same role.
pub open spec fn alternating(ts: Seq<(usize, Seq<char>)>) -> bool {
    forall|k: int| 0 <= k < ts.len() - 1 ==> #[trigger] ts[k].1 != ts[k + 1].1
}

/// Cue indexes where each rendered semantic role begins.
#[derive(Debug, PartialEq, Eq)]
pub struct RenderedCueRoles {
    transitions: Vec<RoleTransition>,
}

impl Default for RenderedCueRoles {
    fn default() -> (r: RenderedCueRoles)
        ensures
            r@.len() == 0,
    {
        RenderedCueRoles { transitions: Vec::new() }
    }
}

impl View for RenderedCueRoles {
    type V = Seq<(usize, Seq<char>)>;

    closed spec fn view(&self) -> Seq<(usize, Seq<char>)> {
        transition_views(self.transitions@)
    }
}

impl RenderedCueRoles {
    /// Every role transition in operator traversal order.
    pub fn transitions(&self) -> (r: &[RoleTransition])
        ensures
            transition_views(r@) == self@,
    {
        self.transitions.as_slice()
    }

    /// Every cue index where the requested role begins.
    pub fn entries(&self, role: &CueRoleId) -> (r: Vec<usize>)
        ensures
            r@ == entries_of(self@, role@),
    {
        let ghost tv = self@;
        let want = chars_of(role.as_str());
        let mut r: Vec<usize> = Vec::new();
        let mut k: usize = 0;
        while k < self.transitions.len()
            invariant
                k <= self.transitions.len(),
                tv == transition_views(self.transitions@),
                want@ == role@,
                r@ == entries_of(tv.take(k as int), role@),
            decreases self.transitions.len() - k,
        {
            let t = &self.transitions[k];
            proof {
                assert(tv.take(k + 1).drop_last() =~= tv.take(k as int));
                assert(tv.take(k + 1).last() == t.view_pair());
            }
            if chars_eq(chars_of(t.role.as_str()).as_slice(), want.as_slice()) {
                let mut seen = false;
                let mut q: usize = 0;
                while q < r.len()
                    invariant
                        q <= r.len(),
                        seen == exists|x: int| 0 <= x < q && r@[x] == t.cue_index,
                    decreases r.len() - q,
                {
                    if r[q] == t.cue_index {
                        seen = true;
                    }
                    q += 1;
                }
                if !seen {
                    r.push(t.cue_index);
                }
            }
            proof {
                assert(r@ =~= entries_of(tv.take(k + 1), role@));
            }
            k += 1;
        }
        proof {
            assert(tv.take(k as int) =~= tv);
        }
        r
    }

    /// Records that the operator reaches cue `cue_index` of `role`.
    fn record(&mut self, cue_index: usize, role: &CueRoleId)
        ensures
            final(self)@ == recorded(old(self)@, cue_index, role@),
    {
        let n = self.transitions.len();
        if n > 0 {
            let same = chars_eq(
                chars_of(self.transitions[n - 1].role.as_str()).as_slice(),
                chars_of(role.as_str()).as_slice(),
            );
            proof {
                assert(self@.last() == self.transitions@[n - 1].view_pair());
            }
            if same {
                return;
            }
        }
        let ghost before = self.transitions@;
        self.transitions.push(RoleTransition { cue_index, role: role.clone() });
        proof {
            assert(transition_views(self.transitions@) =~= transition_views(before).push((cue_index, role@)));
        }
    }

    /// The role transitions of an operator traversal: `order` lists the cue
    /// positions in operator order and `cue_roles` the role of each cue. A
    /// traversal step beyond the known cues is an error.
    pub fn from_operator_order(order: &[usize], cue_roles: &[CueRoleId]) -> (r: Result<
        Self,
        RenderError,
    >)
        ensures
            ({
                let roles = cue_roles@.map_values(|c: CueRoleId| c@);
                match r {
                    Ok(t) => (forall|k: int| 0 <= k < order.len() ==> #[trigger] order@[k] < cue_roles.len())
                        && t@ == operator_transitions(order@, roles, order.len() as int),
                    Err(e) => exists|k: int|
                        0 <= k < order.len() && order@[k] >= cue_roles.len() && (forall|i: int|
                            0 <= i < k ==> #[trigger] order@[i] < cue_roles.len()) && e
                            == RenderError::MissingRenderedCueRole {
                            index: order@[k],
                            cue_count: cue_roles.len(),
                        },
                }
            }),
    {
        let ghost roles = cue_roles@.map_values(|c: CueRoleId| c@);
        let mut rendered = RenderedCueRoles::default();
        let mut k: usize = 0;
        while k < order.len()
            invariant
                k <= order.len(),
                roles == cue_roles@.map_values(|c: CueRoleId| c@),
                forall|i: int| 0 <= i < k ==> #[trigger] order@[i] < cue_roles.len(),
                rendered@ == operator_transitions(order@, roles, k as int),
            decreases order.len() - k,
        {
            let index = order[k];
            if index >= cue_roles.len() {
                return Err(RenderError::MissingRenderedCueRole { index, cue_count: cue_roles.len() });
            }
            rendered.record(index, &cue_roles[index]);
            k += 1;
        }
        Ok(rendered)
    }
}

/// The transitions of an operator traversal never enter the role that is
/// already active: consecutive transitions always differ in role.
pub proof fn law_operator_transitions_alternate(order: Seq<usize>, roles: Seq<Seq<char>>, n: int)
    requires
        0 <= n <= order.len(),
    ensures
        alternating(operator_transitions(order, roles, n)),
    decreases n,
{
    if n > 0 {
        law_operator_transitions_alternate(order, roles, n - 1);
    }
}

/// Each cue index is listed at most once among a role's entries.
pub proof fn law_entries_are_distinct(ts: Seq<(usize, Seq<char>)>, role: Seq<char>)
    ensures
        entries_of(ts, role).no_duplicates(),
    decreases ts.len(),
{
    if ts.len() > 0 {
        law_entries_are_distinct(ts.drop_last(), role);
    }
}

} // verus!
