//! Checked presentation-canvas dimensions.
//!
//! A project expects one canvas size; a native presentation carries one per
//! slide. This module inspects the slides in cue order and decides whether a
//! legacy canvas can be normalized without changing its aspect ratio.
use vstd::prelude::*;
use crate::document::{
    Action, ActionData, BaseSlide, CanvasSize, Cue, GraphicsElement, GraphicsText, Presentation, PresentationSlide,
    SlideElement, SlideKind,
};
use crate::text::{decimal, push_decimal, push_str, string_of};

verus! {

/// Positive slide-canvas dimensions expected by a project.
#[derive(Debug, Clone, Copy, PartialEq, Eq, Structural)]
pub struct PresentationSize {
    width: u32,
    height: u32,
}

impl PresentationSize {
    #[verifier::type_invariant]
    spec fn positive(self) -> bool {
        self.width > 0 && self.height > 0
    }
}

impl View for PresentationSize {
    type V = (u32, u32);

    closed spec fn view(&self) -> (u32, u32) {
        (self.width, self.height)
    }
}

/// Invalid project or native presentation dimensions.
#[derive(Debug, Clone, Copy, PartialEq, Eq, Structural)]
pub enum PresentationSizeError {
    /// Configured width was zero.
    ZeroWidth,
    /// Configured height was zero.
    ZeroHeight,
    /// A native slide had no canvas dimensions.
    Missing,
    /// Native dimensions were non-finite, fractional, non-positive, or too large.
    Invalid,
}

/// Canvas-size state across a presentation's native slide actions.
#[derive(Debug, Clone, Copy, PartialEq, Eq, Structural)]
pub enum PresentationSizeStatus {
    /// The document contains no presentation slide actions.
    Empty,
    /// Every slide has one shared size.
    Uniform {
        /// Shared canvas size.
        size: PresentationSize,
    },
    /// A slide has no canvas size.
    Missing {
        /// Zero-based presentation-slide index.
        slide_index: usize,
    },
    /// A slide has unusable native dimensions.
    Invalid {
        /// Zero-based presentation-slide index.
        slide_index: usize,
    },
    /// A later slide conflicts with the first slide's size.
    Mixed {
        /// First slide's size.
        first: PresentationSize,
        /// First conflicting size.
        conflicting: PresentationSize,
        /// Zero-based presentation-slide index of the conflict.
        slide_index: usize,
    },
}

/// Failure to normalize one legacy canvas without changing its aspect ratio.
#[derive(Debug, Clone, Copy, PartialEq, Eq, Structural)]
pub enum PresentationResizeError {
    /// The source does not contain one valid, uniform slide size.
    NonUniform(PresentationSizeStatus),
    /// Scaling between different aspect ratios would need a layout decision.
    AspectRatio {
        /// Uniform canvas found in the source.
        actual: PresentationSize,
        /// Configured canvas requested.
        target: PresentationSize,
    },
}

impl PresentationSize {
    /// Checked positive dimensions.
    pub fn new(width: u32, height: u32) -> (r: Result<Self, PresentationSizeError>)
        ensures
            width == 0 ==> r == Err::<Self, _>(PresentationSizeError::ZeroWidth),
            width > 0 && height == 0 ==> r == Err::<Self, _>(PresentationSizeError::ZeroHeight),
            width > 0 && height > 0 ==> (r matches Ok(s) && s@ == (width, height)),
    {
        if width == 0 {
            return Err(PresentationSizeError::ZeroWidth);
        }
        if height == 0 {
            return Err(PresentationSizeError::ZeroHeight);
        }
        Ok(PresentationSize { width, height })
    }

    /// The standard full-HD project canvas, 1920 by 1080.
    pub fn full_hd() -> (s: Self)
        ensures
            s@ == (1920u32, 1080u32),
    {
        PresentationSize { width: 1920, height: 1080 }
    }

    /// Canvas width in pixels.
    pub fn width(self) -> (w: u32)
        ensures
            w == self@.0,
            w > 0,
    {
        proof {
            use_type_invariant(&self);
        }
        self.width
    }

    /// Canvas height in pixels.
    pub fn height(self) -> (h: u32)
        ensures
            h == self@.1,
            h > 0,
    {
        proof {
            use_type_invariant(&self);
        }
        self.height
    }

    /// `WIDTHxHEIGHT`, as the size is displayed.
    pub fn to_string(self) -> (s: String)
        ensures
            s@ == size_text(self@),
    {
        let mut out: Vec<char> = Vec::new();
        push_size(&mut out, self);
        string_of(out.as_slice())
    }
}

impl Default for PresentationSize {
    fn default() -> (s: Self)
        ensures
            s@ == (1920u32, 1080u32),
    {
        PresentationSize::full_hd()
    }
}

/// A size as displayed: `WIDTHxHEIGHT`.
pub open spec fn size_text(s: (u32, u32)) -> Seq<char> {
    decimal(s.0 as nat) + seq!['x'] + decimal(s.1 as nat)
}

fn push_size(out: &mut Vec<char>, s: PresentationSize)
    ensures
        final(out)@ == old(out)@ + size_text(s@),
{
    push_decimal(out, s.width as u64);
    out.push('x');
    push_decimal(out, s.height as u64);
    proof {
        assert(final(out)@ =~= old(out)@ + size_text(s@));
    }
}

/// The operator-facing description of a size state.
pub open spec fn status_text(s: PresentationSizeStatus) -> Seq<char> {
    match s {
        PresentationSizeStatus::Empty => "no presentation slides"@,
        PresentationSizeStatus::Uniform { size } => size_text(size@),
        PresentationSizeStatus::Missing { slide_index } => "missing size on slide "@ + decimal(
            (slide_index + 1) as nat,
        ),
        PresentationSizeStatus::Invalid { slide_index } => "invalid size on slide "@ + decimal(
            (slide_index + 1) as nat,
        ),
        PresentationSizeStatus::Mixed { first, conflicting, slide_index } => "mixed ("@ + size_text(
            first@,
        ) + ", "@ + size_text(conflicting@) + " on slide "@ + decimal((slide_index + 1) as nat)
            + ")"@,
    }
}

/// The slide index a status names, if any.
pub open spec fn status_slide_index(s: PresentationSizeStatus) -> Option<usize> {
    match s {
        PresentationSizeStatus::Missing { slide_index } => Some(slide_index),
        PresentationSizeStatus::Invalid { slide_index } => Some(slide_index),
        PresentationSizeStatus::Mixed { slide_index, .. } => Some(slide_index),
        _ => None,
    }
}

impl PresentationSizeStatus {
    /// Whether every slide has the expected canvas size.
    pub fn matches(self, expected: PresentationSize) -> (b: bool)
        ensures
            b == (self == PresentationSizeStatus::Uniform { size: expected }),
    {
        match self {
            PresentationSizeStatus::Uniform { size } => size == expected,
            _ => false,
        }
    }

    /// Compact operator-facing description of the state; slide numbers
    /// count from one.
    pub fn describe(self) -> (s: String)
        requires
            status_slide_index(self) matches Some(i) ==> i < usize::MAX,
        ensures
            s@ == status_text(self),
    {
        let mut out: Vec<char> = Vec::new();
        match self {
            PresentationSizeStatus::Empty => {
                push_str(&mut out, "no presentation slides");
            },
            PresentationSizeStatus::Uniform { size } => {
                push_size(&mut out, size);
            },
            PresentationSizeStatus::Missing { slide_index } => {
                push_str(&mut out, "missing size on slide ");
                push_decimal(&mut out, (slide_index + 1) as u64);
            },
            PresentationSizeStatus::Invalid { slide_index } => {
                push_str(&mut out, "invalid size on slide ");
                push_decimal(&mut out, (slide_index + 1) as u64);
            },
            PresentationSizeStatus::Mixed { first, conflicting, slide_index } => {
                push_str(&mut out, "mixed (");
                push_size(&mut out, first);
                push_str(&mut out, ", ");
                push_size(&mut out, conflicting);
                push_str(&mut out, " on slide ");
                push_decimal(&mut out, (slide_index + 1) as u64);
                push_str(&mut out, ")");
            },
        }
        proof {
            assert(out@ =~= status_text(self));
        }
        string_of(out.as_slice())
    }

    /// Whether this canvas can be normalized to `target` mechanically:
    /// `Ok(None)` when it already matches, `Ok(Some(source))` when every
    /// slide scales from `source` with the same aspect ratio.
    pub fn resize_source(self, target: PresentationSize) -> (r: Result<
        Option<PresentationSize>,
        PresentationResizeError,
    >)
        ensures
            match self {
                PresentationSizeStatus::Uniform { size } => if size == target {
                    r == Ok::<Option<PresentationSize>, PresentationResizeError>(None)
                } else if size@.0 * target@.1 != target@.0 * size@.1 {
                    r == Err::<Option<PresentationSize>, PresentationResizeError>(
                        PresentationResizeError::AspectRatio { actual: size, target },
                    )
                } else {
                    r == Ok::<Option<PresentationSize>, PresentationResizeError>(Some(size))
                },
                _ => r == Err::<Option<PresentationSize>, PresentationResizeError>(
                    PresentationResizeError::NonUniform(self),
                ),
            },
    {
        let source = match self {
            PresentationSizeStatus::Uniform { size } => size,
            _ => return Err(PresentationResizeError::NonUniform(self)),
        };
        if source == target {
            return Ok(None);
        }
        let sw = source.width() as u64;
        let sh = source.height() as u64;
        let tw = target.width() as u64;
        let th = target.height() as u64;
        assert(sw * th <= 0xffff_ffffu64 * 0xffff_ffffu64) by (nonlinear_arith)
            requires
                sw <= 0xffff_ffffu64,
                th <= 0xffff_ffffu64,
        ;
        assert(tw * sh <= 0xffff_ffffu64 * 0xffff_ffffu64) by (nonlinear_arith)
            requires
                tw <= 0xffff_ffffu64,
                sh <= 0xffff_ffffu64,
        ;
        let lhs: u64 = sw * th;
        let rhs: u64 = tw * sh;
        if lhs != rhs {
            return Err(PresentationResizeError::AspectRatio { actual: source, target });
        }
        Ok(Some(source))
    }
}

// ---------------------------------------------------------------------------
// Inspecting a presentation
// ---------------------------------------------------------------------------

/// The size a slide's base canvas denotes.
pub open spec fn slide_size(s: PresentationSlide) -> Result<(u32, u32), PresentationSizeError> {
    match s.base_slide {
        None => Err(PresentationSizeError::Missing),
        Some(b) => match b.size {
            None => Err(PresentationSizeError::Missing),
            Some(c) => match (c.width, c.height) {
                (Some(w), Some(h)) => if w == 0 {
                    Err(PresentationSizeError::ZeroWidth)
                } else if h == 0 {
                    Err(PresentationSizeError::ZeroHeight)
                } else {
                    Ok((w, h))
                },
                _ => Err(PresentationSizeError::Invalid),
            },
        },
    }
}

/// Reads one slide's positive integral canvas size.
pub fn inspect_slide_size(slide: &PresentationSlide) -> (r: Result<PresentationSize, PresentationSizeError>)
    ensures
        match r {
            Ok(s) => slide_size(*slide) == Ok::<(u32, u32), PresentationSizeError>(s@),
            Err(e) => slide_size(*slide) == Err::<(u32, u32), PresentationSizeError>(e),
        },
{
    let size = match &slide.base_slide {
        Some(b) => match b.size {
            Some(c) => c,
            None => return Err(PresentationSizeError::Missing),
        },
        None => return Err(PresentationSizeError::Missing),
    };
    let width = match size.width {
        Some(w) => w,
        None => return Err(PresentationSizeError::Invalid),
    };
    let height = match size.height {
        Some(h) => h,
        None => return Err(PresentationSizeError::Invalid),
    };
    PresentationSize::new(width, height)
}

/// The presentation slide an action shows, if any.
pub open spec fn action_slide(a: Action) -> Option<PresentationSlide> {
    match a.data {
        Some(ActionData::Slide { slide: Some(SlideKind::Presentation(s)) }) => Some(s),
        _ => None,
    }
}

/// The presentation slides of an action list, in order.
pub open spec fn action_slides(acts: Seq<Action>) -> Seq<PresentationSlide>
    decreases acts.len(),
{
    if acts.len() == 0 {
        Seq::empty()
    } else {
        (match action_slide(acts[0]) {
            Some(s) => seq![s],
            None => Seq::empty(),
        }) + action_slides(acts.drop_first())
    }
}

/// The presentation slides of a cue list, in cue and action order.
pub open spec fn cue_slides(cues: Seq<Cue>) -> Seq<PresentationSlide>
    decreases cues.len(),
{
    if cues.len() == 0 {
        Seq::empty()
    } else {
        action_slides(cues[0].actions@) + cue_slides(cues.drop_first())
    }
}

/// Slide `i` is the first whose size is not the first slide's size.
pub open spec fn first_nonconforming(slides: Seq<PresentationSlide>, i: int) -> bool {
    &&& 0 <= i < slides.len()
    &&& (i == 0 || slide_size(slides[i]) != slide_size(slides[0]))
    &&& i > 0 ==> slide_size(slides[0]) is Ok
    &&& forall|k: int| 0 <= k < i ==> slide_size(#[trigger] slides[k]) == slide_size(slides[0])
    &&& (i == 0 ==> slide_size(slides[0]) is Err)
}

/// The size state of a slide list: the first slide that is missing a
/// size, holds an unusable one, or conflicts with the first, else one
/// shared size, else empty.
pub open spec fn size_status_of(slides: Seq<PresentationSlide>, st: PresentationSizeStatus) -> bool {
    if exists|i: int| first_nonconforming(slides, i) {
        let i = choose|i: int| first_nonconforming(slides, i);
        match slide_size(slides[i]) {
            Err(PresentationSizeError::Missing) => st == PresentationSizeStatus::Missing { slide_index: i as usize },
            Err(_) => st == PresentationSizeStatus::Invalid { slide_index: i as usize },
            Ok(s) => st matches PresentationSizeStatus::Mixed { first, conflicting, slide_index }
                && slide_size(slides[0]) == Ok::<(u32, u32), PresentationSizeError>(first@)
                && conflicting@ == s && slide_index == i,
        }
    } else if slides.len() == 0 {
        st == PresentationSizeStatus::Empty
    } else {
        st matches PresentationSizeStatus::Uniform { size } && slide_size(slides[0])
            == Ok::<(u32, u32), PresentationSizeError>(size@)
    }
}

proof fn lemma_nonconforming_unique(slides: Seq<PresentationSlide>, i: int, j: int)
    requires
        first_nonconforming(slides, i),
        first_nonconforming(slides, j),
    ensures
        i == j,
{
    if i < j {
        assert(slide_size(slides[i]) == slide_size(slides[0]));
    } else if j < i {
        assert(slide_size(slides[j]) == slide_size(slides[0]));
    }
}

/// The state an inspection reports once slide `i` fails to conform.
proof fn lemma_status_at(slides: Seq<PresentationSlide>, i: int, st: PresentationSizeStatus)
    requires
        first_nonconforming(slides, i),
        match slide_size(slides[i]) {
            Err(PresentationSizeError::Missing) => st == PresentationSizeStatus::Missing { slide_index: i as usize },
            Err(_) => st == PresentationSizeStatus::Invalid { slide_index: i as usize },
            Ok(s) => st matches PresentationSizeStatus::Mixed { first, conflicting, slide_index }
                && slide_size(slides[0]) == Ok::<(u32, u32), PresentationSizeError>(first@)
                && conflicting@ == s && slide_index == i,
        },
    ensures
        size_status_of(slides, st),
{
    let c = choose|c: int| first_nonconforming(slides, c);
    lemma_nonconforming_unique(slides, c, i);
}

/// Inspects every presentation slide action in cue order.
pub fn inspect_presentation_size(presentation: &Presentation) -> (st: PresentationSizeStatus)
    requires
        cue_slides(presentation.cues@).len() <= usize::MAX,
    ensures
        size_status_of(cue_slides(presentation.cues@), st),
{
    let ghost all = cue_slides(presentation.cues@);
    let mut first: Option<PresentationSize> = None;
    let mut slide_index: usize = 0;
    let ghost mut done: Seq<PresentationSlide> = Seq::empty();
    let mut ci: usize = 0;
    proof {
        assert(presentation.cues@.skip(0) =~= presentation.cues@);
        assert(all =~= done + cue_slides(presentation.cues@.skip(0)));
    }
    while ci < presentation.cues.len()
        invariant
            ci <= presentation.cues.len(),
            all == cue_slides(presentation.cues@),
            all.len() <= usize::MAX,
            all == done + cue_slides(presentation.cues@.skip(ci as int)),
            slide_index == done.len(),
            match first {
                None => done.len() == 0,
                Some(f) => done.len() > 0 && slide_size(done[0]) == Ok::<(u32, u32), PresentationSizeError>(f@),
            },
            forall|k: int| 0 <= k < done.len() ==> slide_size(#[trigger] done[k]) == slide_size(done[0]),
            forall|k: int| 0 <= k < done.len() ==> slide_size(#[trigger] done[k]) is Ok,
        decreases presentation.cues.len() - ci,
    {
        let cue = &presentation.cues[ci];
        proof {
            let rest = presentation.cues@.skip(ci as int);
            assert(rest[0] == *cue);
            assert(rest.drop_first() =~= presentation.cues@.skip(ci + 1));
            assert(cue.actions@.skip(0) =~= cue.actions@);
            assert(all == done + (action_slides(cue.actions@.skip(0)) + cue_slides(presentation.cues@.skip(ci + 1))));
        }
        let mut ai: usize = 0;
        while ai < cue.actions.len()
            invariant
                ai <= cue.actions.len(),
                ci < presentation.cues.len(),
                *cue == presentation.cues@[ci as int],
                all == cue_slides(presentation.cues@),
                all.len() <= usize::MAX,
                all == done + (action_slides(cue.actions@.skip(ai as int)) + cue_slides(presentation.cues@.skip(ci + 1))),
                slide_index == done.len(),
                match first {
                    None => done.len() == 0,
                    Some(f) => done.len() > 0 && slide_size(done[0]) == Ok::<(u32, u32), PresentationSizeError>(f@),
                },
                forall|k: int| 0 <= k < done.len() ==> slide_size(#[trigger] done[k]) == slide_size(done[0]),
                forall|k: int| 0 <= k < done.len() ==> slide_size(#[trigger] done[k]) is Ok,
            decreases cue.actions.len() - ai,
        {
            let action = &cue.actions[ai];
            let ghost tail = cue.actions@.skip(ai as int);
            proof {
                assert(tail[0] == *action);
                assert(tail.drop_first() =~= cue.actions@.skip(ai + 1));
            }
            let slide = match &action.data {
                Some(ActionData::Slide { slide: Some(SlideKind::Presentation(s)) }) => s,
                _ => {
                    proof {
                        assert(action_slide(*action) is None);
                        assert(action_slides(tail) =~= action_slides(cue.actions@.skip(ai + 1)));
                    }
                    ai += 1;
                    continue;
                },
            };
            let ghost after = done.push(*slide);
            proof {
                assert(action_slide(*action) == Some(*slide));
                assert(action_slides(tail) =~= seq![*slide] + action_slides(cue.actions@.skip(ai + 1)));
                assert(all =~= after + (action_slides(cue.actions@.skip(ai + 1)) + cue_slides(presentation.cues@.skip(ci + 1))));
                assert(all[done.len() as int] == *slide);
                assert forall|k: int| 0 <= k < after.len() implies #[trigger] all[k] == after[k] by {}
            }
            let size = match inspect_slide_size(slide) {
                Ok(size) => size,
                Err(e) => {
                    let st = match e {
                        PresentationSizeError::Missing => PresentationSizeStatus::Missing { slide_index },
                        _ => PresentationSizeStatus::Invalid { slide_index },
                    };
                    proof {
                        let i = slide_index as int;
                        if i > 0 {
                            assert(slide_size(all[0]) is Ok);
                            assert(slide_size(all[i]) != slide_size(all[0]));
                        }
                        assert forall|k: int| 0 <= k < i implies slide_size(#[trigger] all[k]) == slide_size(all[0]) by {
                            assert(all[k] == done[k]);
                        }
                        assert(first_nonconforming(all, i));
                        lemma_status_at(all, i, st);
                    }
                    return st;
                },
            };
            match first {
                Some(f) => {
                    if f != size {
                        let st = PresentationSizeStatus::Mixed { first: f, conflicting: size, slide_index };
                        proof {
                            let i = slide_index as int;
                            assert(all[0] == done[0]);
                            assert(slide_size(all[i]) != slide_size(all[0])) by {
                                if f@ == size@ {
                                    assert(f == size);
                                }
                            }
                            assert forall|k: int| 0 <= k < i implies slide_size(#[trigger] all[k]) == slide_size(all[0]) by {
                                assert(all[k] == done[k]);
                            }
                            assert(first_nonconforming(all, i));
                            lemma_status_at(all, i, st);
                        }
                        return st;
                    }
                    proof {
                        assert(f@ == size@);
                    }
                },
                None => {
                    first = Some(size);
                },
            }
            proof {
                done = after;
            }
            slide_index += 1;
            ai += 1;
        }
        proof {
            assert(cue.actions@.skip(ai as int) =~= Seq::<Action>::empty());
            assert(all =~= done + cue_slides(presentation.cues@.skip(ci + 1)));
        }
        ci += 1;
    }
    proof {
        assert(presentation.cues@.skip(ci as int) =~= Seq::<Cue>::empty());
        assert(all =~= done);
        assert(!exists|i: int| first_nonconforming(all, i)) by {
            if exists|i: int| first_nonconforming(all, i) {
                let i = choose|i: int| first_nonconforming(all, i);
                assert(slide_size(all[i]) is Ok);
                if i > 0 {
                    assert(slide_size(all[i]) == slide_size(all[0]));
                }
            }
        }
    }
    match first {
        Some(size) => PresentationSizeStatus::Uniform { size },
        None => PresentationSizeStatus::Empty,
    }
}

// ---------------------------------------------------------------------------
// Scaling RTF font sizes
// ---------------------------------------------------------------------------

/// An ASCII decimal digit byte.
pub open spec fn is_digit_byte(b: u8) -> bool {
    48 <= b <= 57
}

/// The number of leading digit bytes.
pub open spec fn digit_run(b: Seq<u8>) -> nat
    decreases b.len(),
{
    if b.len() > 0 && is_digit_byte(b[0]) {
        1 + digit_run(b.drop_first())
    } else {
        0
    }
}

pub proof fn lemma_digit_run_bound(b: Seq<u8>)
    ensures
        digit_run(b) <= b.len(),
    decreases b.len(),
{
    if b.len() > 0 && is_digit_byte(b[0]) {
        lemma_digit_run_bound(b.drop_first());
    }
}

/// The number a run of digit bytes spells.
pub open spec fn digits_value(d: Seq<u8>) -> nat
    decreases d.len(),
{
    if d.len() == 0 {
        0
    } else {
        digits_value(d.drop_last()) * 10 + (d.last() - 48) as nat
    }
}

/// A font size scaled by `num / den`, rounded to the nearest integer with
/// halves rounded up.
pub open spec fn scaled_size(v: nat, num: nat, den: nat) -> nat {
    (2 * v * num + den) / (2 * den)
}

/// The decimal digits of a number, as bytes.
pub open spec fn decimal_bytes(n: nat) -> Seq<u8>
    decreases n,
{
    if n < 10 {
        seq![(48 + n) as u8]
    } else {
        decimal_bytes(n / 10).push((48 + n % 10) as u8)
    }
}

/// The bytes begin with the control word `\fs`.
pub open spec fn font_size_control(b: Seq<u8>) -> bool {
    b.len() >= 3 && b[0] == 92u8 && b[1] == 102u8 && b[2] == 115u8
}

/// RTF bytes with every `\fs` parameter scaled by `num / den`; a parameter
/// that is empty or does not fit a `u32` is kept as written.
pub open spec fn scaled_font_sizes(b: Seq<u8>, num: nat, den: nat) -> Seq<u8>
    decreases b.len(),
{
    if b.len() == 0 {
        Seq::empty()
    } else if font_size_control(b) {
        let rest = b.skip(3);
        let n = digit_run(rest);
        let digits = rest.take(n as int);
        proof {
            lemma_digit_run_bound(rest);
        }
        b.take(3) + (if n > 0 && digits_value(digits) <= u32::MAX {
            decimal_bytes(scaled_size(digits_value(digits), num, den))
        } else {
            digits
        }) + scaled_font_sizes(rest.skip(n as int), num, den)
    } else {
        seq![b[0]] + scaled_font_sizes(b.skip(1), num, den)
    }
}

fn push_decimal_bytes(out: &mut Vec<u8>, n: u128)
    ensures
        final(out)@ == old(out)@ + decimal_bytes(n as nat),
    decreases n,
{
    if n >= 10 {
        push_decimal_bytes(out, n / 10);
    }
    out.push((48 + n % 10) as u8);
    proof {
        assert(final(out)@ =~= old(out)@ + decimal_bytes(n as nat));
    }
}

proof fn lemma_digit_run_exact(s: Seq<u8>, n: int)
    requires
        0 <= n <= s.len(),
        forall|k: int| 0 <= k < n ==> is_digit_byte(#[trigger] s[k]),
        n == s.len() || !is_digit_byte(s[n]),
    ensures
        digit_run(s) == n,
    decreases n,
{
    if n > 0 {
        assert forall|k: int| 0 <= k < n - 1 implies is_digit_byte(#[trigger] s.drop_first()[k]) by {
            assert(s.drop_first()[k] == s[k + 1]);
        }
        if n < s.len() {
            assert(s.drop_first()[n - 1] == s[n]);
        }
        lemma_digit_run_exact(s.drop_first(), n - 1);
    }
}

/// Scales every `\fs` parameter of RTF bytes by `num / den`.
pub fn scale_rtf_font_sizes(input: &[u8], num: u32, den: u32) -> (out: Vec<u8>)
    requires
        den > 0,
    ensures
        out@ == scaled_font_sizes(input@, num as nat, den as nat),
{
    let ghost total = scaled_font_sizes(input@, num as nat, den as nat);
    let mut out: Vec<u8> = Vec::new();
    let mut i: usize = 0;
    proof {
        assert(input@.skip(0) =~= input@);
    }
    while i < input.len()
        invariant
            i <= input.len(),
            den > 0,
            total == scaled_font_sizes(input@, num as nat, den as nat),
            out@ + scaled_font_sizes(input@.skip(i as int), num as nat, den as nat) == total,
        decreases input.len() - i,
    {
        let ghost here = input@.skip(i as int);
        let ghost before = out@;
        if input.len() - i >= 3 && input[i] == 92u8 && input[i + 1] == 102u8 && input[i + 2] == 115u8 {
            out.push(92u8);
            out.push(102u8);
            out.push(115u8);
            let start = i + 3;
            let mut j = start;
            let mut val: u64 = 0;
            let mut over = false;
            proof {
                assert(input@.subrange(start as int, start as int) =~= Seq::<u8>::empty());
            }
            while j < input.len() && input[j] >= 48u8 && input[j] <= 57u8
                invariant
                    start <= j <= input.len(),
                    forall|k: int| start <= k < j ==> is_digit_byte(#[trigger] input@[k]),
                    !over ==> val == digits_value(input@.subrange(start as int, j as int)) && val <= u32::MAX,
                    over ==> digits_value(input@.subrange(start as int, j as int)) > u32::MAX,
                decreases input.len() - j,
            {
                let d: u64 = (input[j] - 48u8) as u64;
                proof {
                    assert(input@.subrange(start as int, j + 1).drop_last() =~= input@.subrange(start as int, j as int));
                    assert(input@.subrange(start as int, j + 1).last() == input@[j as int]);
                }
                if !over {
                    let nv: u64 = val * 10 + d;
                    if nv > 0xffff_ffffu64 {
                        over = true;
                    } else {
                        val = nv;
                    }
                }
                j += 1;
            }
            let ghost rest = here.skip(3);
            proof {
                assert(rest =~= input@.skip(start as int));
                lemma_digit_run_exact(rest, j - start);
                assert(rest.take(j - start) =~= input@.subrange(start as int, j as int));
                assert(rest.skip(j - start) =~= input@.skip(j as int));
                assert(here.take(3) =~= seq![92u8, 102u8, 115u8]);
                assert(font_size_control(here));
            }
            if j > start && !over {
                let v = val as u128;
                let nn = num as u128;
                let dd = den as u128;
                assert(2 * v * nn <= 2 * 0xffff_ffffu128 * 0xffff_ffffu128) by (nonlinear_arith)
                    requires
                        v <= 0xffff_ffffu128,
                        nn <= 0xffff_ffffu128,
                ;
                let scaled: u128 = (2 * v * nn + dd) / (2 * dd);
                push_decimal_bytes(&mut out, scaled);
            } else {
                let mut k = start;
                while k < j
                    invariant
                        start <= k <= j <= input.len(),
                        out@ == before + seq![92u8, 102u8, 115u8] + input@.subrange(start as int, k as int),
                    decreases j - k,
                {
                    proof {
                        assert(input@.subrange(start as int, k + 1) =~= input@.subrange(start as int, k as int).push(input@[k as int]));
                    }
                    out.push(input[k]);
                    k += 1;
                }
            }
            proof {
                let value = if j - start > 0 && digits_value(input@.subrange(start as int, j as int)) <= u32::MAX {
                    decimal_bytes(scaled_size(digits_value(input@.subrange(start as int, j as int)), num as nat, den as nat))
                } else {
                    input@.subrange(start as int, j as int)
                };
                assert(out@ =~= before + (seq![92u8, 102u8, 115u8] + value));
                assert(scaled_font_sizes(here, num as nat, den as nat) == here.take(3) + value + scaled_font_sizes(
                    input@.skip(j as int),
                    num as nat,
                    den as nat,
                ));
            }
            i = j;
        } else {
            proof {
                assert(!font_size_control(here)) by {
                    if font_size_control(here) {
                        assert(here[0] == input@[i as int] && here[1] == input@[i + 1] && here[2] == input@[i + 2]);
                    }
                }
                assert(here.skip(1) =~= input@.skip(i + 1));
            }
            out.push(input[i]);
            i += 1;
        }
    }
    proof {
        assert(input@.skip(i as int) =~= Seq::<u8>::empty());
        assert(out@ =~= total);
    }
    out
}

// ---------------------------------------------------------------------------
// Resizing actions
// ---------------------------------------------------------------------------

/// Element `n` is element `o` with its text's `\fs` sizes scaled by
/// `num / den`.
pub open spec fn element_resized(o: SlideElement, n: SlideElement, num: nat, den: nat) -> bool {
    &&& n.data_links == o.data_links
    &&& match o.element {
        None => n.element is None,
        Some(g) => n.element matches Some(ng) && ng.name == g.name && ng.fill == g.fill && match g.text {
            None => ng.text is None,
            Some(tx) => ng.text matches Some(ntx) && ntx.attributes == tx.attributes && ntx.rtf_data@
                == scaled_font_sizes(tx.rtf_data@, num, den),
        },
    }
}

/// Slide `n` is slide `o` resized to `t` from `src`: a slide with a base
/// gets the target canvas and its text sizes scaled by the vertical ratio;
/// one without a base is unchanged.
pub open spec fn slide_resized(o: PresentationSlide, n: PresentationSlide, t: (u32, u32), src: (u32, u32)) -> bool {
    match o.base_slide {
        None => n == o,
        Some(b) => {
            &&& n.chord_chart == o.chord_chart
            &&& n.notes_attributes == o.notes_attributes
            &&& n.base_slide matches Some(nb) && nb.size == Some(CanvasSize { width: Some(t.0), height: Some(t.1) })
                && nb.elements@.len() == b.elements@.len() && forall|k: int|
                0 <= k < b.elements@.len() ==> element_resized(
                    #[trigger] b.elements@[k],
                    nb.elements@[k],
                    t.1 as nat,
                    src.1 as nat,
                )
        },
    }
}

/// Action `n` is action `o` resized to `t` from `src`: a presentation slide
/// is resized; every other action is unchanged.
pub open spec fn resized_action(o: Action, n: Action, t: (u32, u32), src: (u32, u32)) -> bool {
    match o.data {
        Some(ActionData::Slide { slide: Some(SlideKind::Presentation(s)) }) => {
            &&& n.uuid == o.uuid
            &&& n.name == o.name
            &&& n.action_type == o.action_type
            &&& n.is_enabled == o.is_enabled
            &&& n.data matches Some(ActionData::Slide { slide: Some(SlideKind::Presentation(ns)) })
                && slide_resized(s, ns, t, src)
        },
        _ => n == o,
    }
}

fn resize_element(e: SlideElement, num: u32, den: u32) -> (r: SlideElement)
    requires
        den > 0,
    ensures
        element_resized(e, r, num as nat, den as nat),
{
    let SlideElement { element, data_links } = e;
    let element = match element {
        None => None,
        Some(g) => {
            let GraphicsElement { name, fill, text } = g;
            let text = match text {
                None => None,
                Some(tx) => {
                    let rtf_data = scale_rtf_font_sizes(tx.rtf_data.as_slice(), num, den);
                    Some(GraphicsText { rtf_data, attributes: tx.attributes })
                },
            };
            Some(GraphicsElement { name, fill, text })
        },
    };
    SlideElement { element, data_links }
}

fn resize_elements(elements: Vec<SlideElement>, num: u32, den: u32) -> (r: Vec<SlideElement>)
    requires
        den > 0,
    ensures
        r@.len() == elements@.len(),
        forall|k: int| 0 <= k < elements@.len() ==> element_resized(#[trigger] elements@[k], r@[k], num as nat, den as nat),
{
    let ghost orig = elements@;
    let mut rest = elements;
    let mut r: Vec<SlideElement> = Vec::new();
    while rest.len() > 0
        invariant
            den > 0,
            r@.len() + rest@.len() == orig.len(),
            forall|q: int| 0 <= q < rest@.len() ==> #[trigger] rest@[q] == orig[r@.len() as int + q],
            forall|k: int| 0 <= k < r@.len() ==> element_resized(#[trigger] orig[k], r@[k], num as nat, den as nat),
        decreases rest@.len(),
    {
        proof {
            assert(rest@[0] == orig[r@.len() as int]);
        }
        let e = rest.remove(0);
        r.push(resize_element(e, num, den));
    }
    r
}

fn resize_action(action: &mut Action, tw: u32, th: u32, sw: u32, sh: u32)
    requires
        sh > 0,
    ensures
        resized_action(*old(action), *final(action), (tw, th), (sw, sh)),
{
    match &mut action.data {
        Some(ActionData::Slide { slide: Some(SlideKind::Presentation(s)) }) => match &mut s.base_slide {
            Some(b) => {
                b.size = Some(CanvasSize { width: Some(tw), height: Some(th) });
                let mut elements: Vec<SlideElement> = Vec::new();
                std::mem::swap(&mut elements, &mut b.elements);
                b.elements = resize_elements(elements, th, sh);
            },
            None => {},
        },
        _ => {},
    }
}

/// Cue `n` is cue `o` with every action resized to `t` from `src`.
pub open spec fn resized_cue(o: Cue, n: Cue, t: (u32, u32), src: (u32, u32)) -> bool {
    &&& n.uuid == o.uuid
    &&& n.name == o.name
    &&& n.actions@.len() == o.actions@.len()
    &&& forall|k: int| 0 <= k < o.actions@.len() ==> #[trigger] resized_action(o.actions@[k], n.actions@[k], t, src)
}

/// `n` is `o` with every presentation slide's canvas set to `t` and its
/// text sizes scaled from `src`.
pub open spec fn resized_presentation(o: Presentation, n: Presentation, t: (u32, u32), src: (u32, u32)) -> bool {
    &&& n.uuid == o.uuid
    &&& n.name == o.name
    &&& n.cue_groups == o.cue_groups
    &&& n.arrangements == o.arrangements
    &&& n.selected_arrangement == o.selected_arrangement
    &&& n.cues@.len() == o.cues@.len()
    &&& forall|k: int| 0 <= k < o.cues@.len() ==> #[trigger] resized_cue(o.cues@[k], n.cues@[k], t, src)
}

/// Resizes a uniform legacy canvas to `target` when the aspect ratio is the
/// same: every presentation slide's canvas becomes `target`, and every
/// `\fs` font size in its text elements' RTF is scaled by the vertical
/// ratio (target height over source height), rounded half up. `Ok(false)`
/// and no change when it already matches; an error and no change when the
/// canvas is not uniform or the aspect ratio differs. Element geometry,
/// text attributes and margins, which the native format holds as floating
/// point, are not in this model and are not scaled here.
pub fn resize_presentation_canvas(presentation: &mut Presentation, target: PresentationSize) -> (r: Result<
    bool,
    PresentationResizeError,
>)
    requires
        cue_slides(old(presentation).cues@).len() <= usize::MAX,
    ensures
        exists|st: PresentationSizeStatus|
            #[trigger] size_status_of(cue_slides(old(presentation).cues@), st) && match st {
                PresentationSizeStatus::Uniform { size } => if size == target {
                    r == Ok::<bool, PresentationResizeError>(false) && *final(presentation) == *old(presentation)
                } else if size@.0 * target@.1 != target@.0 * size@.1 {
                    r == Err::<bool, PresentationResizeError>(
                        PresentationResizeError::AspectRatio { actual: size, target },
                    ) && *final(presentation) == *old(presentation)
                } else {
                    r == Ok::<bool, PresentationResizeError>(true) && resized_presentation(
                        *old(presentation),
                        *final(presentation),
                        target@,
                        size@,
                    )
                },
                _ => r == Err::<bool, PresentationResizeError>(PresentationResizeError::NonUniform(st))
                    && *final(presentation) == *old(presentation),
            },
{
    let st = inspect_presentation_size(presentation);
    let source = match st.resize_source(target) {
        Err(e) => return Err(e),
        Ok(None) => return Ok(false),
        Ok(Some(source)) => source,
    };
    let tw = target.width();
    let th = target.height();
    let sw = source.width();
    let sh = source.height();
    proof {
        use_type_invariant(&source);
    }
    let ghost src = (sw, sh);
    let ghost old_p = *presentation;
    let mut ci: usize = 0;
    while ci < presentation.cues.len()
        invariant
            ci <= presentation.cues.len(),
            sh > 0,
            presentation.cues@.len() == old_p.cues@.len(),
            presentation.uuid == old_p.uuid,
            presentation.name == old_p.name,
            presentation.cue_groups == old_p.cue_groups,
            presentation.arrangements == old_p.arrangements,
            presentation.selected_arrangement == old_p.selected_arrangement,
            target@ == (tw, th),
            src == (sw, sh),
            forall|k: int| 0 <= k < ci ==> #[trigger] resized_cue(old_p.cues@[k], presentation.cues@[k], target@, src),
            forall|k: int| ci <= k < old_p.cues@.len() ==> #[trigger] presentation.cues@[k] == old_p.cues@[k],
        decreases presentation.cues.len() - ci,
    {
        let n = presentation.cues[ci].actions.len();
        let mut ai: usize = 0;
        while ai < n
            invariant
                ai <= n,
                sh > 0,
                ci < presentation.cues.len(),
                presentation.cues@.len() == old_p.cues@.len(),
                presentation.uuid == old_p.uuid,
                presentation.name == old_p.name,
                presentation.cue_groups == old_p.cue_groups,
                presentation.arrangements == old_p.arrangements,
                presentation.selected_arrangement == old_p.selected_arrangement,
                target@ == (tw, th),
                src == (sw, sh),
                n == old_p.cues@[ci as int].actions@.len(),
                presentation.cues@[ci as int].actions@.len() == n,
                presentation.cues@[ci as int].uuid == old_p.cues@[ci as int].uuid,
                presentation.cues@[ci as int].name == old_p.cues@[ci as int].name,
                forall|k: int| 0 <= k < ai ==> #[trigger] resized_action(old_p.cues@[ci as int].actions@[k], presentation.cues@[ci as int].actions@[k], target@, src),
                forall|k: int| ai <= k < n ==> #[trigger] presentation.cues@[ci as int].actions@[k] == old_p.cues@[ci as int].actions@[k],
                forall|k: int| 0 <= k < ci ==> #[trigger] resized_cue(old_p.cues@[k], presentation.cues@[k], target@, src),
                forall|k: int| ci < k < old_p.cues@.len() ==> #[trigger] presentation.cues@[k] == old_p.cues@[k],
            decreases n - ai,
        {
            resize_action(&mut presentation.cues[ci].actions[ai], tw, th, sw, sh);
            ai += 1;
        }
        proof {
            assert(resized_cue(old_p.cues@[ci as int], presentation.cues@[ci as int], target@, src));
        }
        ci += 1;
    }
    proof {
        assert(resized_presentation(old_p, *presentation, target@, src));
    }
    Ok(true)
}

/// Slides `ns` are slides `os` resized, position by position.
pub open spec fn slides_resized(os: Seq<PresentationSlide>, ns: Seq<PresentationSlide>, t: (u32, u32), src: (u32, u32)) -> bool {
    ns.len() == os.len() && forall|k: int| 0 <= k < os.len() ==> #[trigger] slide_resized(os[k], ns[k], t, src)
}

proof fn lemma_slides_resized_append(
    a: Seq<PresentationSlide>,
    b: Seq<PresentationSlide>,
    c: Seq<PresentationSlide>,
    d: Seq<PresentationSlide>,
    t: (u32, u32),
    src: (u32, u32),
)
    requires
        slides_resized(a, c, t, src),
        slides_resized(b, d, t, src),
    ensures
        slides_resized(a + b, c + d, t, src),
{
    assert forall|k: int| 0 <= k < (a + b).len() implies #[trigger] slide_resized((a + b)[k], (c + d)[k], t, src) by {
        if k < a.len() {
            assert((a + b)[k] == a[k] && (c + d)[k] == c[k]);
        } else {
            assert((a + b)[k] == b[k - a.len()] && (c + d)[k] == d[k - a.len()]);
        }
    }
}

proof fn lemma_resized_action_slides(o: Seq<Action>, n: Seq<Action>, t: (u32, u32), src: (u32, u32))
    requires
        n.len() == o.len(),
        forall|k: int| 0 <= k < o.len() ==> #[trigger] resized_action(o[k], n[k], t, src),
    ensures
        slides_resized(action_slides(o), action_slides(n), t, src),
    decreases o.len(),
{
    if o.len() > 0 {
        assert forall|k: int| 0 <= k < o.drop_first().len() implies #[trigger] resized_action(o.drop_first()[k], n.drop_first()[k], t, src) by {
            assert(resized_action(o[k + 1], n[k + 1], t, src));
        }
        lemma_resized_action_slides(o.drop_first(), n.drop_first(), t, src);
        assert(resized_action(o[0], n[0], t, src));
        let oh = match action_slide(o[0]) {
            Some(s) => seq![s],
            None => Seq::<PresentationSlide>::empty(),
        };
        let nh = match action_slide(n[0]) {
            Some(s) => seq![s],
            None => Seq::<PresentationSlide>::empty(),
        };
        assert(slides_resized(oh, nh, t, src));
        lemma_slides_resized_append(oh, action_slides(o.drop_first()), nh, action_slides(n.drop_first()), t, src);
    }
}

proof fn lemma_resized_cue_slides(o: Seq<Cue>, n: Seq<Cue>, t: (u32, u32), src: (u32, u32))
    requires
        n.len() == o.len(),
        forall|k: int| 0 <= k < o.len() ==> #[trigger] resized_cue(o[k], n[k], t, src),
    ensures
        slides_resized(cue_slides(o), cue_slides(n), t, src),
    decreases o.len(),
{
    if o.len() > 0 {
        assert forall|k: int| 0 <= k < o.drop_first().len() implies #[trigger] resized_cue(o.drop_first()[k], n.drop_first()[k], t, src) by {
            assert(resized_cue(o[k + 1], n[k + 1], t, src));
        }
        lemma_resized_cue_slides(o.drop_first(), n.drop_first(), t, src);
        assert(resized_cue(o[0], n[0], t, src));
        lemma_resized_action_slides(o[0].actions@, n[0].actions@, t, src);
        lemma_slides_resized_append(
            action_slides(o[0].actions@),
            cue_slides(o.drop_first()),
            action_slides(n[0].actions@),
            cue_slides(n.drop_first()),
            t,
            src,
        );
    }
}

/// A uniform run: every slide has the first slide's size, and that is a size.
proof fn lemma_uniform_sizes(slides: Seq<PresentationSlide>, k: int)
    requires
        !exists|i: int| first_nonconforming(slides, i),
        slides.len() > 0,
        0 <= k < slides.len(),
    ensures
        slide_size(slides[0]) is Ok,
        forall|j: int| 0 <= j <= k ==> slide_size(#[trigger] slides[j]) == slide_size(slides[0]),
    decreases k,
{
    if slide_size(slides[0]) is Err {
        assert(first_nonconforming(slides, 0));
    }
    if k > 0 {
        lemma_uniform_sizes(slides, k - 1);
        if slide_size(slides[k]) != slide_size(slides[0]) {
            assert(first_nonconforming(slides, k));
        }
    }
}

/// Law: resizing a uniform canvas to a target makes the inspection report
/// that target for every slide: after `resize_presentation_canvas`
/// returns `Ok(true)`, `inspect_presentation_size` gives `Uniform` with the
/// target, over the same slides in the same order.
pub proof fn law_resize_inspects_as_target(
    o: Presentation,
    n: Presentation,
    size: PresentationSize,
    target: PresentationSize,
)
    requires
        target@.0 > 0,
        target@.1 > 0,
        size_status_of(cue_slides(o.cues@), PresentationSizeStatus::Uniform { size }),
        resized_presentation(o, n, target@, size@),
    ensures
        cue_slides(n.cues@).len() == cue_slides(o.cues@).len(),
        size_status_of(cue_slides(n.cues@), PresentationSizeStatus::Uniform { size: target }),
{
    let t = target@;
    let os = cue_slides(o.cues@);
    lemma_resized_cue_slides(o.cues@, n.cues@, t, size@);
    let ns = cue_slides(n.cues@);
    assert(!exists|i: int| first_nonconforming(os, i));
    assert(os.len() > 0);
    lemma_uniform_sizes(os, os.len() - 1);
    assert forall|j: int| 0 <= j < ns.len() implies slide_size(#[trigger] ns[j]) == Ok::<(u32, u32), PresentationSizeError>(t) by {
        assert(slide_size(os[j]) == slide_size(os[0]));
        assert(slide_resized(os[j], ns[j], t, size@));
    }
    assert(!exists|i: int| first_nonconforming(ns, i)) by {
        if exists|i: int| first_nonconforming(ns, i) {
            let i = choose|i: int| first_nonconforming(ns, i);
            assert(slide_size(ns[i]) == Ok::<(u32, u32), PresentationSizeError>(t));
            assert(slide_size(ns[0]) == Ok::<(u32, u32), PresentationSizeError>(t));
        }
    }
}

} // verus!
