//! The chart data model: notes, judge fields, shapes, click-effect
//! templates and the event timeline.
//!
//! A chart is immutable once loaded. All instants and durations are integer
//! milliseconds, coordinates are integer canvas units, and dimensionless
//! ratios (scale factors, rotations given as cosine/sine pairs, flick
//! directions) are fixed-point parts-per-million. The well-formedness
//! predicate `chart_ok` bounds every stored number so that all later
//! arithmetic on a compiled session is exact and free of overflow; the
//! executable checker `Chart::check` decides it and reports why a chart is
//! malformed.

use vstd::prelude::*;
use crate::error::ChartError;

verus! {

/// One million: the fixed-point unit for dimensionless ratios.
pub const PPM: i64 = 1_000_000;

/// Largest admissible chart instant or duration, in milliseconds.
pub const CHART_TIME_MAX_MS: i64 = 1_000_000_000_000;

/// Largest admissible chart coordinate magnitude, in canvas units.
pub const COORD_MAX: i64 = 1_000_000_000;

/// Largest admissible magnitude for a ratio in parts-per-million.
pub const RATIO_MAX_PPM: i64 = 10_000_000;

/// A two-dimensional point or vector in integer canvas units.
#[derive(Clone, Copy, PartialEq, Eq, Structural, Debug)]
pub struct Vec2 {
    pub x: i64,
    pub y: i64,
}

/// Whether an instant or duration lies in the admissible chart range.
pub open spec fn time_ok(t: int) -> bool {
    0 <= t <= CHART_TIME_MAX_MS
}

/// Whether both coordinates of a point are admissible.
pub open spec fn coord_ok(v: Vec2) -> bool {
    -COORD_MAX <= v.x <= COORD_MAX && -COORD_MAX <= v.y <= COORD_MAX
}

/// Whether a fixed-point ratio is admissible.
pub open spec fn ratio_ok(r: int) -> bool {
    -RATIO_MAX_PPM <= r <= RATIO_MAX_PPM
}

/// Which animated property a track drives.
///
/// The playback core interprets the two position components (click
/// effects are translated along them) and, on a judge field, the
/// components of the hit-area transform, which the judgment engine
/// re-samples at the current time. Every other property is an opaque
/// key that the renderer resolves.
#[derive(Clone, Copy, PartialEq, Eq, Structural, Debug)]
pub enum AnimateTarget {
    PositionX,
    PositionY,
    FieldMinX,
    FieldMinY,
    FieldMaxX,
    FieldMaxY,
    FieldOriginX,
    FieldOriginY,
    FieldScaleX,
    FieldScaleY,
    FieldRotateCos,
    FieldRotateSin,
    Other(u64),
}

/// How one animation segment moves from its previous value to its end
/// value.
#[derive(Clone, Copy, PartialEq, Eq, Structural, Debug)]
pub enum Easing {
    /// Interpolate linearly over the segment.
    Linear,
    /// Keep the previous value and jump at the segment's end.
    Mutation,
}

/// One segment of an animation track.
#[derive(Clone, Copy, PartialEq, Eq, Structural, Debug)]
pub struct Linker {
    pub end_value: i64,
    pub sustain_time: i64,
    pub easing: Easing,
}

/// One animation track: a start value at a start instant followed by a
/// chain of segments.
#[derive(Clone, PartialEq, Debug)]
pub struct AnimationTrack {
    pub target: AnimateTarget,
    pub start_time: i64,
    pub start_value: i64,
    pub linkers: Vec<Linker>,
}

/// Total duration of a chain of segments.
pub open spec fn linkers_total(linkers: Seq<Linker>) -> int
    decreases linkers.len(),
{
    if linkers.len() == 0 {
        0
    } else {
        linkers[0].sustain_time + linkers_total(linkers.drop_first())
    }
}

/// The basic renderable unit: a primitive placed at `position`, visible
/// from `start_time` for `sustain_time`, animated by its tracks. A shape
/// tied to notes through `linked_note_id` leaves the render queue early
/// once all those notes are judged.
#[derive(Clone, PartialEq, Debug)]
pub struct Shape {
    pub id: u64,
    pub animation: Vec<AnimationTrack>,
    pub linked_note_id: Option<Vec<u64>>,
    pub position: Vec2,
    pub start_time: i64,
    pub sustain_time: i64,
}

/// One step of a chain judge type: the next judge field and the delay
/// after which the pointer must reach it.
#[derive(Clone, Copy, PartialEq, Eq, Structural, Debug)]
pub struct ChainLink {
    pub field_id: u64,
    pub delay_ms: i64,
}

/// How a note is judged.
///
/// Angled variants carry the target flick direction as a (possibly
/// unnormalised) fixed-point vector; only its direction matters.
#[derive(Clone, PartialEq, Debug)]
pub enum JudgeType {
    Tap,
    Slide,
    Flick,
    /// How long the player must hold, in milliseconds.
    Hold(i64),
    TapAndFlick,
    /// Multi-field hand-off; no protocol is defined yet, so charts using
    /// it are rejected when compiled.
    Chain(Vec<ChainLink>),
    /// Like `Chain`, entered with a tap; likewise rejected.
    TapChain(Vec<ChainLink>),
    /// Flick towards the stored direction.
    AngledFlick(Vec2),
    /// Like `AngledFlick`, entered with a tap.
    AngledTapFlick(Vec2),
}

/// A note: when it must be played, on which judge field, how it is judged
/// and which click effect it spawns where.
#[derive(Clone, PartialEq, Debug)]
pub struct Note {
    pub note_id: u64,
    pub judge_type: JudgeType,
    pub judge_time: i64,
    pub judge_field_id: u64,
    pub click_effect_id: u64,
    /// Explicit anchor for the click effect, used when `linked_shape` is
    /// absent or none of the linked shapes is currently rendered.
    pub click_effect_position: Vec2,
    /// If present, the click effect is anchored at the centroid of the
    /// currently rendered shapes with these ids.
    pub linked_shape: Option<Vec<u64>>,
}

/// The transformable hit-area of a judge field: the rectangle
/// `min..=max`, scaled about `transform_origin`, rotated about it by the
/// angle whose cosine and sine are stored in parts-per-million, then
/// shifted by `position`.
#[derive(Clone, Copy, PartialEq, Eq, Structural, Debug)]
pub struct JudgeFieldInner {
    pub min: Vec2,
    pub max: Vec2,
    pub position: Vec2,
    pub transform_origin: Vec2,
    /// Scale factors in parts-per-million (one million is unscaled).
    pub scale: Vec2,
    /// Cosine of the rotation angle, in parts-per-million.
    pub rotate_cos_ppm: i64,
    /// Sine of the rotation angle, in parts-per-million.
    pub rotate_sin_ppm: i64,
}

/// A judge field: a hit-area with animation tracks and an active window.
#[derive(Clone, PartialEq, Debug)]
pub struct JudgeField {
    pub inner: JudgeFieldInner,
    pub animation: Vec<AnimationTrack>,
    pub start_time: i64,
    pub sustain_time: i64,
}

/// A click effect: one shape-list template per grade tier, stored as
/// time- and position-relative deltas, retimed and repositioned at the
/// judgment instant.
#[derive(Clone, PartialEq, Debug)]
pub struct ClickEffect {
    pub immaculate_effect: Vec<Shape>,
    pub extra_effect: Vec<Shape>,
    pub normal_effect: Vec<Shape>,
    pub fade_effect: Vec<Shape>,
    pub miss_effect: Vec<Shape>,
}

/// What a chart event does when its time comes.
#[derive(Clone, Copy, PartialEq, Eq, Structural, Debug)]
pub enum ChartEventInner {
    /// No effect.
    Idle,
    /// Switch the active shader, or back to the default.
    ChangeShader(Option<u64>),
    /// An event interpreted by the host.
    Custom(u64),
}

/// A timed entry of the chart's event timeline.
#[derive(Clone, Copy, PartialEq, Eq, Structural, Debug)]
pub struct ChartEvent {
    pub inner: ChartEventInner,
    pub time: i64,
}

/// A judge field together with its id.
#[derive(Clone, PartialEq, Debug)]
pub struct FieldDef {
    pub id: u64,
    pub field: JudgeField,
}

/// A click-effect template together with its id.
#[derive(Clone, PartialEq, Debug)]
pub struct EffectDef {
    pub id: u64,
    pub effect: ClickEffect,
}

/// An abstraction of a chart: everything a play session is compiled from.
#[derive(Clone, PartialEq, Debug)]
pub struct Chart {
    pub notes: Vec<Note>,
    pub judge_fields: Vec<FieldDef>,
    pub shapes: Vec<Shape>,
    pub click_effects: Vec<EffectDef>,
    pub events: Vec<ChartEvent>,
    /// Ids of the shaders the host has loaded for this chart.
    pub shaders: Vec<u64>,
    /// How large an area the chart takes.
    pub size: Vec2,
}

impl AnimationTrack {
    /// Times are admissible and the track ends within the chart range.
    pub open spec fn wf(self) -> bool {
        &&& time_ok(self.start_time as int)
        &&& -COORD_MAX <= self.start_value <= COORD_MAX
        &&& forall|i: int| 0 <= i < self.linkers@.len() ==> {
            &&& time_ok((#[trigger] self.linkers@[i]).sustain_time as int)
            &&& -COORD_MAX <= self.linkers@[i].end_value <= COORD_MAX
        }
        &&& self.start_time + linkers_total(self.linkers@) <= CHART_TIME_MAX_MS
    }
}

impl Shape {
    /// Every stored number of the shape is in the admissible chart range.
    pub open spec fn wf(self) -> bool {
        &&& time_ok(self.start_time as int)
        &&& time_ok(self.sustain_time as int)
        &&& coord_ok(self.position)
        &&& forall|i: int| 0 <= i < self.animation@.len()
            ==> (#[trigger] self.animation@[i]).wf()
    }
}

impl JudgeType {
    /// Whether the judge type is one with a defined protocol: the chain
    /// types need a multi-field hand-off that is not specified yet, so
    /// charts using them are rejected when compiled.
    pub open spec fn chain_free(self) -> bool {
        !(self is Chain) && !(self is TapChain)
    }

    /// Whether the judge type's own numbers are admissible: a hold lasts
    /// at least one millisecond and at most the chart range, and angled
    /// directions are non-zero admissible ratios.
    pub open spec fn ranges_ok(self) -> bool {
        match self {
            JudgeType::Hold(d) => 1 <= d <= CHART_TIME_MAX_MS,
            JudgeType::AngledFlick(dir) => ratio_ok(dir.x as int) && ratio_ok(dir.y as int)
                && !(dir.x == 0 && dir.y == 0),
            JudgeType::AngledTapFlick(dir) => ratio_ok(dir.x as int) && ratio_ok(dir.y as int)
                && !(dir.x == 0 && dir.y == 0),
            _ => true,
        }
    }

    /// An admissible judge type with a defined protocol.
    pub open spec fn wf(self) -> bool {
        self.chain_free() && self.ranges_ok()
    }
}

impl Note {
    /// Every stored number of the note is admissible.
    pub open spec fn wf(self) -> bool {
        &&& self.judge_type.wf()
        &&& time_ok(self.judge_time as int)
        &&& coord_ok(self.click_effect_position)
    }
}

impl JudgeFieldInner {
    /// Coordinates and ratios of the transform are admissible.
    pub open spec fn wf(self) -> bool {
        &&& coord_ok(self.min)
        &&& coord_ok(self.max)
        &&& coord_ok(self.position)
        &&& coord_ok(self.transform_origin)
        &&& ratio_ok(self.scale.x as int)
        &&& ratio_ok(self.scale.y as int)
        &&& ratio_ok(self.rotate_cos_ppm as int)
        &&& ratio_ok(self.rotate_sin_ppm as int)
    }
}

impl JudgeField {
    /// Every stored number of the field is admissible.
    pub open spec fn wf(self) -> bool {
        &&& self.inner.wf()
        &&& time_ok(self.start_time as int)
        &&& time_ok(self.sustain_time as int)
        &&& forall|i: int| 0 <= i < self.animation@.len()
            ==> (#[trigger] self.animation@[i]).wf()
    }
}

impl ClickEffect {
    /// Every template shape of every tier is admissible.
    pub open spec fn wf(self) -> bool {
        &&& forall|i: int| 0 <= i < self.immaculate_effect@.len()
            ==> (#[trigger] self.immaculate_effect@[i]).wf()
        &&& forall|i: int| 0 <= i < self.extra_effect@.len()
            ==> (#[trigger] self.extra_effect@[i]).wf()
        &&& forall|i: int| 0 <= i < self.normal_effect@.len()
            ==> (#[trigger] self.normal_effect@[i]).wf()
        &&& forall|i: int| 0 <= i < self.fade_effect@.len()
            ==> (#[trigger] self.fade_effect@[i]).wf()
        &&& forall|i: int| 0 <= i < self.miss_effect@.len()
            ==> (#[trigger] self.miss_effect@[i]).wf()
    }
}

/// Whether all note ids in `notes` are distinct.
pub open spec fn note_ids_unique(notes: Seq<Note>) -> bool {
    forall|i: int, j: int| 0 <= i < j < notes.len()
        ==> (#[trigger] notes[i]).note_id != (#[trigger] notes[j]).note_id
}

/// Whether all field ids in `fields` are distinct.
pub open spec fn field_ids_unique(fields: Seq<FieldDef>) -> bool {
    forall|i: int, j: int| 0 <= i < j < fields.len()
        ==> (#[trigger] fields[i]).id != (#[trigger] fields[j]).id
}

/// Whether all effect ids in `effects` are distinct.
pub open spec fn effect_ids_unique(effects: Seq<EffectDef>) -> bool {
    forall|i: int, j: int| 0 <= i < j < effects.len()
        ==> (#[trigger] effects[i]).id != (#[trigger] effects[j]).id
}

/// Whether some note of the chart uses a chain judge type.
pub open spec fn has_chain_note(chart: Chart) -> bool {
    exists|i: int| 0 <= i < chart.notes@.len()
        && !(#[trigger] chart.notes@[i]).judge_type.chain_free()
}

/// Whether every stored number of the chart is in its admissible range.
pub open spec fn chart_values_ok(chart: Chart) -> bool {
    &&& forall|i: int| 0 <= i < chart.notes@.len() ==> (#[trigger] chart.notes@[i]).values_ok()
    &&& forall|i: int| 0 <= i < chart.judge_fields@.len()
        ==> (#[trigger] chart.judge_fields@[i]).field.wf()
    &&& forall|i: int| 0 <= i < chart.shapes@.len() ==> (#[trigger] chart.shapes@[i]).wf()
    &&& forall|i: int| 0 <= i < chart.click_effects@.len()
        ==> (#[trigger] chart.click_effects@[i]).effect.wf()
    &&& forall|i: int| 0 <= i < chart.events@.len()
        ==> time_ok((#[trigger] chart.events@[i]).time as int)
    &&& coord_ok(chart.size)
}

/// Whether all ids of the chart's three keyed collections are unique.
pub open spec fn chart_ids_unique(chart: Chart) -> bool {
    &&& note_ids_unique(chart.notes@)
    &&& field_ids_unique(chart.judge_fields@)
    &&& effect_ids_unique(chart.click_effects@)
}

/// A chart is well formed: ids of notes, judge fields and effect
/// templates are unique, no note uses an unsupported chain judge type,
/// and every stored number is in its admissible range. Only such charts
/// compile into a play session.
pub open spec fn chart_ok(chart: Chart) -> bool {
    &&& chart_ids_unique(chart)
    &&& !has_chain_note(chart)
    &&& chart_values_ok(chart)
}

/// Whether a run of ids holds no value twice.
pub open spec fn ids_unique(ids: Seq<u64>) -> bool {
    forall|i: int, j: int| 0 <= i < j < ids.len() ==> ids[i] != ids[j]
}

/// Decide whether a run of ids holds no value twice.
fn check_ids_unique(ids: &Vec<u64>) -> (unique: bool)
    ensures
        unique == ids_unique(ids@),
{
    let ghost s = ids@;
    let mut i: usize = 0;
    while i < ids.len()
        invariant
            i <= ids@.len(),
            ids@ == s,
            forall|a: int, b: int| 0 <= a < b < ids@.len() && a < i ==> ids@[a] != ids@[b],
        decreases ids@.len() - i,
    {
        let mut j: usize = i + 1;
        while j < ids.len()
            invariant
                i < j <= ids@.len(),
                ids@ == s,
                forall|b: int| i < b < j ==> ids@[i as int] != ids@[b],
            decreases ids@.len() - j,
        {
            if ids[i] == ids[j] {
                return false;
            }
            j += 1;
        }
        i += 1;
    }
    true
}

/// The total duration of a segment prefix grows by the next segment.
pub proof fn lemma_linkers_total_take(linkers: Seq<Linker>, i: int)
    requires
        0 <= i < linkers.len(),
    ensures
        linkers_total(linkers.take(i + 1)) == linkers_total(linkers.take(i))
            + linkers[i].sustain_time,
    decreases i,
{
    if i == 0 {
        assert(linkers.take(1).drop_first() =~= linkers.take(0));
    } else {
        assert(linkers.take(i + 1).drop_first() =~= linkers.drop_first().take(i));
        assert(linkers.take(i).drop_first() =~= linkers.drop_first().take(i - 1));
        lemma_linkers_total_take(linkers.drop_first(), i - 1);
    }
}

/// With non-negative segment durations, a prefix of the chain lasts no
/// longer than the whole chain.
pub proof fn lemma_linkers_total_mono(linkers: Seq<Linker>, i: int)
    requires
        0 <= i <= linkers.len(),
        forall|k: int| 0 <= k < linkers.len()
            ==> 0 <= (#[trigger] linkers[k]).sustain_time,
    ensures
        linkers_total(linkers.take(i)) <= linkers_total(linkers),
    decreases linkers.len() - i,
{
    if i < linkers.len() {
        lemma_linkers_total_take(linkers, i);
        lemma_linkers_total_mono(linkers, i + 1);
    } else {
        assert(linkers.take(i) =~= linkers);
    }
}

impl AnimationTrack {
    /// Decide whether the track's numbers are in the admissible chart
    /// range.
    pub fn check(&self) -> (ok: bool)
        ensures
            ok == self.wf(),
    {
        if !(0 <= self.start_time && self.start_time <= CHART_TIME_MAX_MS) {
            return false;
        }
        if !(-COORD_MAX <= self.start_value && self.start_value <= COORD_MAX) {
            return false;
        }
        let mut i: usize = 0;
        while i < self.linkers.len()
            invariant
                i <= self.linkers@.len(),
                forall|k: int| 0 <= k < i ==> {
                    &&& time_ok((#[trigger] self.linkers@[k]).sustain_time as int)
                    &&& -COORD_MAX <= self.linkers@[k].end_value <= COORD_MAX
                },
            decreases self.linkers@.len() - i,
        {
            let linker = self.linkers[i];
            if !(0 <= linker.sustain_time && linker.sustain_time <= CHART_TIME_MAX_MS) {
                return false;
            }
            if !(-COORD_MAX <= linker.end_value && linker.end_value <= COORD_MAX) {
                return false;
            }
            i += 1;
        }
        let mut total: i64 = 0;
        let mut i: usize = 0;
        assert(self.linkers@.take(0) =~= Seq::<Linker>::empty());
        while i < self.linkers.len()
            invariant
                i <= self.linkers@.len(),
                total == linkers_total(self.linkers@.take(i as int)),
                0 <= total <= CHART_TIME_MAX_MS,
                forall|k: int| 0 <= k < self.linkers@.len() ==> {
                    &&& time_ok((#[trigger] self.linkers@[k]).sustain_time as int)
                    &&& -COORD_MAX <= self.linkers@[k].end_value <= COORD_MAX
                },
            decreases self.linkers@.len() - i,
        {
            proof {
                lemma_linkers_total_take(self.linkers@, i as int);
            }
            let next = total + self.linkers[i].sustain_time;
            if next > CHART_TIME_MAX_MS {
                proof {
                    lemma_linkers_total_mono(self.linkers@, i + 1);
                }
                return false;
            }
            total = next;
            i += 1;
        }
        proof {
            assert(self.linkers@.take(i as int) =~= self.linkers@);
        }
        self.start_time + total <= CHART_TIME_MAX_MS
    }
}

impl Shape {
    /// Decide whether the shape's numbers are in the admissible chart
    /// range.
    pub fn check(&self) -> (ok: bool)
        ensures
            ok == self.wf(),
    {
        if !(0 <= self.start_time && self.start_time <= CHART_TIME_MAX_MS) {
            return false;
        }
        if !(0 <= self.sustain_time && self.sustain_time <= CHART_TIME_MAX_MS) {
            return false;
        }
        if !(-COORD_MAX <= self.position.x && self.position.x <= COORD_MAX && -COORD_MAX
            <= self.position.y && self.position.y <= COORD_MAX) {
            return false;
        }
        let mut i: usize = 0;
        while i < self.animation.len()
            invariant
                i <= self.animation@.len(),
                forall|k: int| 0 <= k < i ==> (#[trigger] self.animation@[k]).wf(),
            decreases self.animation@.len() - i,
        {
            if !self.animation[i].check() {
                return false;
            }
            i += 1;
        }
        true
    }
}

/// Decide whether every shape of a template tier is admissible.
fn check_shapes(shapes: &Vec<Shape>) -> (ok: bool)
    ensures
        ok == forall|i: int| 0 <= i < shapes@.len() ==> (#[trigger] shapes@[i]).wf(),
{
    let mut i: usize = 0;
    while i < shapes.len()
        invariant
            i <= shapes@.len(),
            forall|k: int| 0 <= k < i ==> (#[trigger] shapes@[k]).wf(),
        decreases shapes@.len() - i,
    {
        if !shapes[i].check() {
            return false;
        }
        i += 1;
    }
    true
}

impl Note {
    /// Every stored number of the note is admissible; the judge type may
    /// still be an unsupported chain type.
    pub open spec fn values_ok(self) -> bool {
        &&& self.judge_type.ranges_ok()
        &&& time_ok(self.judge_time as int)
        &&& coord_ok(self.click_effect_position)
    }

    /// Decide whether the note's numbers are admissible.
    pub fn check_values(&self) -> (ok: bool)
        ensures
            ok == self.values_ok(),
    {
        if !(0 <= self.judge_time && self.judge_time <= CHART_TIME_MAX_MS) {
            return false;
        }
        if !(-COORD_MAX <= self.click_effect_position.x && self.click_effect_position.x
            <= COORD_MAX && -COORD_MAX <= self.click_effect_position.y
            && self.click_effect_position.y <= COORD_MAX) {
            return false;
        }
        match &self.judge_type {
            JudgeType::Hold(d) => 1 <= *d && *d <= CHART_TIME_MAX_MS,
            JudgeType::AngledFlick(dir) | JudgeType::AngledTapFlick(dir) => {
                -RATIO_MAX_PPM <= dir.x && dir.x <= RATIO_MAX_PPM && -RATIO_MAX_PPM <= dir.y
                    && dir.y <= RATIO_MAX_PPM && !(dir.x == 0 && dir.y == 0)
            },
            _ => true,
        }
    }
}

impl JudgeField {
    /// Decide whether the field's numbers are admissible.
    pub fn check(&self) -> (ok: bool)
        ensures
            ok == self.wf(),
    {
        let inner = &self.inner;
        if !(-COORD_MAX <= inner.min.x && inner.min.x <= COORD_MAX && -COORD_MAX <= inner.min.y
            && inner.min.y <= COORD_MAX && -COORD_MAX <= inner.max.x && inner.max.x <= COORD_MAX
            && -COORD_MAX <= inner.max.y && inner.max.y <= COORD_MAX) {
            return false;
        }
        if !(-COORD_MAX <= inner.position.x && inner.position.x <= COORD_MAX && -COORD_MAX
            <= inner.position.y && inner.position.y <= COORD_MAX && -COORD_MAX
            <= inner.transform_origin.x && inner.transform_origin.x <= COORD_MAX && -COORD_MAX
            <= inner.transform_origin.y && inner.transform_origin.y <= COORD_MAX) {
            return false;
        }
        if !(-RATIO_MAX_PPM <= inner.scale.x && inner.scale.x <= RATIO_MAX_PPM && -RATIO_MAX_PPM
            <= inner.scale.y && inner.scale.y <= RATIO_MAX_PPM && -RATIO_MAX_PPM
            <= inner.rotate_cos_ppm && inner.rotate_cos_ppm <= RATIO_MAX_PPM && -RATIO_MAX_PPM
            <= inner.rotate_sin_ppm && inner.rotate_sin_ppm <= RATIO_MAX_PPM) {
            return false;
        }
        if !(0 <= self.start_time && self.start_time <= CHART_TIME_MAX_MS && 0
            <= self.sustain_time && self.sustain_time <= CHART_TIME_MAX_MS) {
            return false;
        }
        let mut i: usize = 0;
        while i < self.animation.len()
            invariant
                i <= self.animation@.len(),
                forall|k: int| 0 <= k < i ==> (#[trigger] self.animation@[k]).wf(),
            decreases self.animation@.len() - i,
        {
            if !self.animation[i].check() {
                return false;
            }
            i += 1;
        }
        true
    }
}

/// The value of a chain of animation segments at time `t`, given the
/// value `prev` reached at instant `t0`: a linear segment interpolates
/// with truncating division, a mutation segment keeps the previous value
/// and jumps at its end.
pub open spec fn spec_sample(linkers: Seq<Linker>, t0: int, prev: int, t: int) -> int
    decreases linkers.len(),
{
    if linkers.len() == 0 {
        prev
    } else {
        let lk = linkers[0];
        if t < t0 + lk.sustain_time {
            match lk.easing {
                Easing::Linear => if lk.sustain_time <= 0 {
                    prev
                } else {
                    prev + crate::judge::spec_div_trunc(
                        (lk.end_value - prev) * (t - t0),
                        lk.sustain_time as int,
                    )
                },
                Easing::Mutation => prev,
            }
        } else {
            spec_sample(linkers.drop_first(), t0 + lk.sustain_time, lk.end_value as int, t)
        }
    }
}

/// The value of an animation track at time `t`: the start value before
/// the track begins, then its segments in order.
pub open spec fn spec_value_at(track: AnimationTrack, t: int) -> int {
    if t < track.start_time {
        track.start_value as int
    } else {
        spec_sample(track.linkers@, track.start_time as int, track.start_value as int, t)
    }
}

impl AnimationTrack {
    /// Evaluate the track at time `time_ms`. This is the animation
    /// evaluation capability the scheduler delegates to: the renderer
    /// samples every track of every rendered shape each tick.
    pub fn value_at(&self, time_ms: i64) -> (v: i64)
        requires
            -9_000_000_000_000_000 <= self.start_time <= 9_000_000_000_000_000,
            -2_000_000_000_000_000 <= self.start_value <= 2_000_000_000_000_000,
            forall|i: int| 0 <= i < self.linkers@.len() ==> {
                &&& time_ok((#[trigger] self.linkers@[i]).sustain_time as int)
                &&& -2_000_000_000_000_000 <= self.linkers@[i].end_value
                    <= 2_000_000_000_000_000
            },
            linkers_total(self.linkers@) <= CHART_TIME_MAX_MS,
            -10_000_000_000_000_000 <= time_ms <= 10_000_000_000_000_000,
        ensures
            v == spec_value_at(*self, time_ms as int),
            -2_000_000_000_000_000 <= v <= 2_000_000_000_000_000,
    {
        if time_ms < self.start_time {
            return self.start_value;
        }
        let mut t0: i64 = self.start_time;
        let mut prev: i64 = self.start_value;
        let mut i: usize = 0;
        proof {
            assert(self.linkers@.skip(0) =~= self.linkers@);
            assert(self.linkers@.take(0) =~= Seq::<Linker>::empty());
        }
        while i < self.linkers.len()
            invariant
                i <= self.linkers@.len(),
                forall|j: int| 0 <= j < self.linkers@.len() ==> {
                    &&& time_ok((#[trigger] self.linkers@[j]).sustain_time as int)
                    &&& -2_000_000_000_000_000 <= self.linkers@[j].end_value
                        <= 2_000_000_000_000_000
                },
                linkers_total(self.linkers@) <= CHART_TIME_MAX_MS,
                -10_000_000_000_000_000 <= time_ms <= 10_000_000_000_000_000,
                t0 == self.start_time + linkers_total(self.linkers@.take(i as int)),
                -9_000_000_000_000_000 <= self.start_time <= 9_000_000_000_000_000,
                0 <= linkers_total(self.linkers@.take(i as int)) <= CHART_TIME_MAX_MS,
                -2_000_000_000_000_000 <= prev <= 2_000_000_000_000_000,
                time_ms >= t0,
                spec_sample(
                    self.linkers@.skip(i as int),
                    t0 as int,
                    prev as int,
                    time_ms as int,
                ) == spec_sample(
                    self.linkers@,
                    self.start_time as int,
                    self.start_value as int,
                    time_ms as int,
                ),
            decreases self.linkers@.len() - i,
        {
            let lk = self.linkers[i];
            proof {
                assert(self.linkers@.skip(i as int)[0] == self.linkers@[i as int]);
            }
            if time_ms < t0 + lk.sustain_time {
                match lk.easing {
                    Easing::Mutation => {
                        return prev;
                    },
                    Easing::Linear => {
                        if lk.sustain_time <= 0 {
                            return prev;
                        }
                        let d: i128 = lk.end_value as i128 - prev as i128;
                        let x: i128 = (time_ms - t0) as i128;
                        let s: i128 = lk.sustain_time as i128;
                        proof {
                            crate::judge::lemma_mul_bound(
                                d as int,
                                x as int,
                                4_000_000_000_000_000,
                                1_000_000_000_000,
                            );
                        }
                        let num: i128 = d * x;
                        let q: i128 = if num >= 0 {
                            num / s
                        } else {
                            -((-num) / s)
                        };
                        proof {
                            lemma_interp_bounded(d as int, x as int, s as int);
                        }
                        return prev + q as i64;
                    },
                }
            } else {
                proof {
                    assert(self.linkers@.skip(i as int).drop_first() =~= self.linkers@.skip(
                        i as int + 1,
                    ));
                    lemma_linkers_total_take(self.linkers@, i as int);
                    lemma_linkers_total_mono(self.linkers@, i as int + 1);
                    lemma_linkers_total_nonneg_prefix(self.linkers@, i as int + 1);
                }
                t0 = t0 + lk.sustain_time;
                prev = lk.end_value;
                i += 1;
            }
        }
        proof {
            assert(self.linkers@.skip(i as int) =~= Seq::<Linker>::empty());
        }
        prev
    }
}

/// A value clamped into a symmetric range.
pub open spec fn spec_clamp_to(v: int, bound: int) -> int {
    if v > bound {
        bound
    } else if v < -bound {
        -bound
    } else {
        v
    }
}

/// Clamp a value into a symmetric range.
fn clamp_to(v: i64, bound: i64) -> (r: i64)
    requires
        0 <= bound,
    ensures
        r == spec_clamp_to(v as int, bound as int),
        -bound <= r <= bound,
{
    if v > bound {
        bound
    } else if v < -bound {
        -bound
    } else {
        v
    }
}

/// One field-transform track applied to a hit-area transform at time
/// `t`: the driven component takes the track's sampled value, clamped
/// into the component's admissible range; tracks on other properties
/// leave the transform alone.
pub open spec fn spec_apply_field_track(
    inner: JudgeFieldInner,
    track: AnimationTrack,
    t: int,
) -> JudgeFieldInner {
    let v = spec_value_at(track, t);
    let coord = spec_clamp_to(v, COORD_MAX as int) as i64;
    let ratio = spec_clamp_to(v, RATIO_MAX_PPM as int) as i64;
    match track.target {
        AnimateTarget::PositionX => JudgeFieldInner {
            position: Vec2 { x: coord, y: inner.position.y },
            ..inner
        },
        AnimateTarget::PositionY => JudgeFieldInner {
            position: Vec2 { x: inner.position.x, y: coord },
            ..inner
        },
        AnimateTarget::FieldMinX => JudgeFieldInner {
            min: Vec2 { x: coord, y: inner.min.y },
            ..inner
        },
        AnimateTarget::FieldMinY => JudgeFieldInner {
            min: Vec2 { x: inner.min.x, y: coord },
            ..inner
        },
        AnimateTarget::FieldMaxX => JudgeFieldInner {
            max: Vec2 { x: coord, y: inner.max.y },
            ..inner
        },
        AnimateTarget::FieldMaxY => JudgeFieldInner {
            max: Vec2 { x: inner.max.x, y: coord },
            ..inner
        },
        AnimateTarget::FieldOriginX => JudgeFieldInner {
            transform_origin: Vec2 { x: coord, y: inner.transform_origin.y },
            ..inner
        },
        AnimateTarget::FieldOriginY => JudgeFieldInner {
            transform_origin: Vec2 { x: inner.transform_origin.x, y: coord },
            ..inner
        },
        AnimateTarget::FieldScaleX => JudgeFieldInner {
            scale: Vec2 { x: ratio, y: inner.scale.y },
            ..inner
        },
        AnimateTarget::FieldScaleY => JudgeFieldInner {
            scale: Vec2 { x: inner.scale.x, y: ratio },
            ..inner
        },
        AnimateTarget::FieldRotateCos => JudgeFieldInner { rotate_cos_ppm: ratio, ..inner },
        AnimateTarget::FieldRotateSin => JudgeFieldInner { rotate_sin_ppm: ratio, ..inner },
        AnimateTarget::Other(_) => inner,
    }
}

/// A run of field-transform tracks applied in order.
pub open spec fn spec_field_inner_fold(
    inner: JudgeFieldInner,
    tracks: Seq<AnimationTrack>,
    t: int,
) -> JudgeFieldInner
    decreases tracks.len(),
{
    if tracks.len() == 0 {
        inner
    } else {
        spec_field_inner_fold(spec_apply_field_track(inner, tracks[0], t), tracks.drop_first(), t)
    }
}

/// The judge field's hit-area transform at time `t`: the compiled
/// transform with every animated component re-sampled.
pub open spec fn spec_field_inner_at(field: JudgeField, t: int) -> JudgeFieldInner {
    spec_field_inner_fold(field.inner, field.animation@, t)
}

impl JudgeField {
    /// Sample the field's animated hit-area transform at time
    /// `time_ms`; the judgment engine tests pointers against this, not
    /// against the compiled transform.
    pub fn inner_at(&self, time_ms: i64) -> (inner: JudgeFieldInner)
        requires
            self.wf(),
            -10_000_000_000_000_000 <= time_ms <= 10_000_000_000_000_000,
        ensures
            inner == spec_field_inner_at(*self, time_ms as int),
            inner.wf(),
    {
        let mut inner = self.inner;
        let mut i: usize = 0;
        proof {
            assert(self.animation@.skip(0) =~= self.animation@);
        }
        while i < self.animation.len()
            invariant
                self.wf(),
                -10_000_000_000_000_000 <= time_ms <= 10_000_000_000_000_000,
                i <= self.animation@.len(),
                inner.wf(),
                spec_field_inner_fold(inner, self.animation@.skip(i as int), time_ms as int)
                    == spec_field_inner_at(*self, time_ms as int),
            decreases self.animation@.len() - i,
        {
            let track = &self.animation[i];
            proof {
                assert(self.animation@[i as int].wf());
                assert(self.animation@.skip(i as int)[0] == self.animation@[i as int]);
                assert(self.animation@.skip(i as int).drop_first() =~= self.animation@.skip(
                    i as int + 1,
                ));
            }
            let v = track.value_at(time_ms);
            let coord = clamp_to(v, COORD_MAX);
            let ratio = clamp_to(v, RATIO_MAX_PPM);
            match track.target {
                AnimateTarget::PositionX => {
                    inner.position.x = coord;
                },
                AnimateTarget::PositionY => {
                    inner.position.y = coord;
                },
                AnimateTarget::FieldMinX => {
                    inner.min.x = coord;
                },
                AnimateTarget::FieldMinY => {
                    inner.min.y = coord;
                },
                AnimateTarget::FieldMaxX => {
                    inner.max.x = coord;
                },
                AnimateTarget::FieldMaxY => {
                    inner.max.y = coord;
                },
                AnimateTarget::FieldOriginX => {
                    inner.transform_origin.x = coord;
                },
                AnimateTarget::FieldOriginY => {
                    inner.transform_origin.y = coord;
                },
                AnimateTarget::FieldScaleX => {
                    inner.scale.x = ratio;
                },
                AnimateTarget::FieldScaleY => {
                    inner.scale.y = ratio;
                },
                AnimateTarget::FieldRotateCos => {
                    inner.rotate_cos_ppm = ratio;
                },
                AnimateTarget::FieldRotateSin => {
                    inner.rotate_sin_ppm = ratio;
                },
                AnimateTarget::Other(_) => {},
            }
            i += 1;
        }
        proof {
            assert(self.animation@.skip(i as int) =~= Seq::<AnimationTrack>::empty());
        }
        inner
    }
}

/// A prefix of admissible segments has a non-negative total duration.
pub proof fn lemma_linkers_total_nonneg_prefix(linkers: Seq<Linker>, i: int)
    requires
        0 <= i <= linkers.len(),
        forall|j: int| 0 <= j < linkers.len()
            ==> 0 <= (#[trigger] linkers[j]).sustain_time,
    ensures
        linkers_total(linkers.take(i)) >= 0,
    decreases i,
{
    if i > 0 {
        lemma_linkers_total_take(linkers, i - 1);
        lemma_linkers_total_nonneg_prefix(linkers, i - 1);
    }
}

/// Truncated linear interpolation stays between its endpoints: with
/// `0 <= x < s`, the step `trunc(d * x / s)` lies between zero and `d`.
proof fn lemma_interp_bounded(d: int, x: int, s: int)
    requires
        0 <= x < s,
    ensures
        d >= 0 ==> 0 <= crate::judge::spec_div_trunc(d * x, s) <= d,
        d < 0 ==> d <= crate::judge::spec_div_trunc(d * x, s) <= 0,
{
    if d >= 0 {
        vstd::arithmetic::mul::lemma_mul_inequality(x, s, d);
        vstd::arithmetic::mul::lemma_mul_is_commutative(x, d);
        vstd::arithmetic::mul::lemma_mul_is_commutative(s, d);
        vstd::arithmetic::div_mod::lemma_div_is_ordered(d * x, d * s, s);
        vstd::arithmetic::div_mod::lemma_div_multiples_vanish(d, s);
        vstd::arithmetic::mul::lemma_mul_is_commutative(d, s);
        if d * x >= 0 {
            vstd::arithmetic::div_mod::lemma_div_pos_is_pos(d * x, s);
        } else {
            vstd::arithmetic::mul::lemma_mul_nonnegative(d, x);
        }
    } else {
        vstd::arithmetic::mul::lemma_mul_inequality(x, s, -d);
        vstd::arithmetic::mul::lemma_mul_is_commutative(x, -d);
        vstd::arithmetic::mul::lemma_mul_is_commutative(s, -d);
        vstd::arithmetic::div_mod::lemma_div_is_ordered((-d) * x, (-d) * s, s);
        vstd::arithmetic::div_mod::lemma_div_multiples_vanish(-d, s);
        vstd::arithmetic::mul::lemma_mul_is_commutative(-d, s);
        assert((-d) * x == -(d * x)) by (nonlinear_arith);
        assert((-d) * x >= 0) by (nonlinear_arith)
            requires
                d < 0,
                x >= 0,
        {
        }
        vstd::arithmetic::div_mod::lemma_div_pos_is_pos((-d) * x, s);
    }
}

/// Whether two animation tracks hold the same data.
pub open spec fn track_like(a: AnimationTrack, b: AnimationTrack) -> bool {
    &&& a.target == b.target
    &&& a.start_time == b.start_time
    &&& a.start_value == b.start_value
    &&& a.linkers@ == b.linkers@
}

/// Whether two shapes hold the same data, compared field by field down
/// to the views of their lists.
pub open spec fn shape_like(a: Shape, b: Shape) -> bool {
    &&& a.id == b.id
    &&& a.start_time == b.start_time
    &&& a.sustain_time == b.sustain_time
    &&& a.position == b.position
    &&& (match (a.linked_note_id, b.linked_note_id) {
        (Option::None, Option::None) => true,
        (Option::Some(x), Option::Some(y)) => x@ == y@,
        _ => false,
    })
    &&& a.animation@.len() == b.animation@.len()
    &&& forall|i: int| 0 <= i < a.animation@.len()
        ==> track_like(#[trigger] a.animation@[i], b.animation@[i])
}

/// Two runs of shapes holding the same data, position by position.
pub open spec fn shapes_like(a: Seq<Shape>, b: Seq<Shape>) -> bool {
    a.len() == b.len() && forall|i: int| 0 <= i < a.len()
        ==> shape_like(#[trigger] a[i], b[i])
}

impl Shape {
    /// A fresh copy of the shape holding the same data.
    pub fn duplicate(&self) -> (out: Shape)
        ensures
            shape_like(out, *self),
    {
        let mut animation: Vec<AnimationTrack> = Vec::new();
        let mut i: usize = 0;
        while i < self.animation.len()
            invariant
                i <= self.animation@.len(),
                animation@.len() == i,
                forall|j: int| 0 <= j < i
                    ==> track_like(#[trigger] animation@[j], self.animation@[j]),
            decreases self.animation@.len() - i,
        {
            let src = &self.animation[i];
            let mut linkers: Vec<Linker> = Vec::new();
            let mut l: usize = 0;
            while l < src.linkers.len()
                invariant
                    l <= src.linkers@.len(),
                    linkers@ == src.linkers@.take(l as int),
                decreases src.linkers@.len() - l,
            {
                linkers.push(src.linkers[l]);
                proof {
                    assert(linkers@ =~= src.linkers@.take(l as int + 1));
                }
                l += 1;
            }
            proof {
                assert(src.linkers@.take(l as int) =~= src.linkers@);
            }
            animation.push(
                AnimationTrack {
                    target: src.target,
                    start_time: src.start_time,
                    start_value: src.start_value,
                    linkers,
                },
            );
            i += 1;
        }
        let linked: Option<Vec<u64>> = match &self.linked_note_id {
            Option::None => None,
            Option::Some(v) => {
                let mut copy: Vec<u64> = Vec::new();
                let mut q: usize = 0;
                while q < v.len()
                    invariant
                        q <= v@.len(),
                        copy@ == v@.take(q as int),
                    decreases v@.len() - q,
                {
                    copy.push(v[q]);
                    proof {
                        assert(copy@ =~= v@.take(q as int + 1));
                    }
                    q += 1;
                }
                proof {
                    assert(v@.take(q as int) =~= v@);
                }
                Some(copy)
            },
        };
        Shape {
            id: self.id,
            animation,
            linked_note_id: linked,
            position: self.position,
            start_time: self.start_time,
            sustain_time: self.sustain_time,
        }
    }
}

/// Shapes holding the same data are interchangeably admissible, both by
/// the chart bounds and by the render-queue bounds.
pub proof fn lemma_shape_like_wf(a: Shape, b: Shape)
    requires
        shape_like(a, b),
    ensures
        a.wf() == b.wf(),
{
    if a.wf() {
        assert forall|i: int| 0 <= i < b.animation@.len() implies (
        #[trigger] b.animation@[i]).wf() by {
            assert(a.animation@[i].wf());
            assert(track_like(a.animation@[i], b.animation@[i]));
        }
        assert(b.wf());
    }
    if b.wf() {
        assert forall|i: int| 0 <= i < a.animation@.len() implies (
        #[trigger] a.animation@[i]).wf() by {
            assert(b.animation@[i].wf());
            assert(track_like(a.animation@[i], b.animation@[i]));
        }
        assert(a.wf());
    }
}

/// Opaque track key of the built-in effect's opacity fade.
pub const EFFECT_TRACK_ALPHA: u64 = 0;

/// Opaque track key of the built-in effect's radius growth.
pub const EFFECT_TRACK_RADIUS: u64 = 1;

/// One tier of the built-in click effect: a circle that grows to radius
/// 75 while fading out and drifting up-left, over 300 milliseconds.
fn default_effect_tier() -> (shapes: Vec<Shape>)
    ensures
        shapes@.len() == 1,
        forall|i: int| 0 <= i < shapes@.len() ==> (#[trigger] shapes@[i]).wf(),
{
    let mut animation: Vec<AnimationTrack> = Vec::new();
    let fade = AnimationTrack {
        target: AnimateTarget::Other(EFFECT_TRACK_ALPHA),
        start_time: 0,
        start_value: 255,
        linkers: vec![Linker { end_value: 0, sustain_time: 300, easing: Easing::Linear }],
    };
    let move_x = AnimationTrack {
        target: AnimateTarget::PositionX,
        start_time: 0,
        start_value: 0,
        linkers: vec![Linker { end_value: -75, sustain_time: 300, easing: Easing::Linear }],
    };
    let move_y = AnimationTrack {
        target: AnimateTarget::PositionY,
        start_time: 0,
        start_value: 0,
        linkers: vec![Linker { end_value: -75, sustain_time: 300, easing: Easing::Linear }],
    };
    let grow = AnimationTrack {
        target: AnimateTarget::Other(EFFECT_TRACK_RADIUS),
        start_time: 0,
        start_value: 0,
        linkers: vec![Linker { end_value: 75, sustain_time: 300, easing: Easing::Linear }],
    };
    proof {
        assert(fade.linkers@.drop_first() =~= Seq::<Linker>::empty());
        assert(move_x.linkers@.drop_first() =~= Seq::<Linker>::empty());
        assert(move_y.linkers@.drop_first() =~= Seq::<Linker>::empty());
        assert(grow.linkers@.drop_first() =~= Seq::<Linker>::empty());
        assert(linkers_total(Seq::<Linker>::empty()) == 0);
    }
    assert(fade.wf());
    assert(move_x.wf());
    assert(move_y.wf());
    assert(grow.wf());
    animation.push(fade);
    animation.push(move_x);
    animation.push(move_y);
    animation.push(grow);
    let shape = Shape {
        id: 0,
        animation,
        linked_note_id: None,
        position: Vec2 { x: 0, y: 0 },
        start_time: 0,
        sustain_time: 300,
    };
    let mut shapes: Vec<Shape> = Vec::new();
    shapes.push(shape);
    shapes
}

impl Default for ClickEffect {
    /// The built-in click effect, used when a note names no template of
    /// the chart: each tier shows the same transient circle.
    fn default() -> (effect: ClickEffect)
        ensures
            effect.wf(),
            effect.immaculate_effect@.len() == 1,
            effect.extra_effect@.len() == 1,
            effect.normal_effect@.len() == 1,
            effect.fade_effect@.len() == 1,
            effect.miss_effect@.len() == 1,
    {
        ClickEffect {
            immaculate_effect: default_effect_tier(),
            extra_effect: default_effect_tier(),
            normal_effect: default_effect_tier(),
            fade_effect: default_effect_tier(),
            miss_effect: default_effect_tier(),
        }
    }
}

impl ClickEffect {
    /// Decide whether every template shape of every tier is admissible.
    pub fn check(&self) -> (ok: bool)
        ensures
            ok == self.wf(),
    {
        check_shapes(&self.immaculate_effect) && check_shapes(&self.extra_effect) && check_shapes(
            &self.normal_effect,
        ) && check_shapes(&self.fade_effect) && check_shapes(&self.miss_effect)
    }
}

impl Chart {
    /// Decide whether the chart is usable, reporting why it is not:
    /// duplicate ids first, then an unsupported chain judge type, then a
    /// number out of its admissible range.
    pub fn check(&self) -> (r: Result<(), ChartError>)
        ensures
            r is Ok <==> chart_ok(*self),
            r == Err::<(), ChartError>(ChartError::DuplicateId) <==> !chart_ids_unique(*self),
            r == Err::<(), ChartError>(ChartError::UnsupportedJudgeType) <==> (chart_ids_unique(
                *self,
            ) && has_chain_note(*self)),
            r == Err::<(), ChartError>(ChartError::ValueOutOfRange) <==> (chart_ids_unique(*self)
                && !has_chain_note(*self) && !chart_values_ok(*self)),
    {
        let mut note_ids: Vec<u64> = Vec::new();
        let mut i: usize = 0;
        while i < self.notes.len()
            invariant
                i <= self.notes@.len(),
                note_ids@.len() == i,
                forall|k: int| 0 <= k < i ==> note_ids@[k] == (#[trigger] self.notes@[k]).note_id,
            decreases self.notes@.len() - i,
        {
            note_ids.push(self.notes[i].note_id);
            i += 1;
        }
        let mut field_ids: Vec<u64> = Vec::new();
        let mut i: usize = 0;
        while i < self.judge_fields.len()
            invariant
                i <= self.judge_fields@.len(),
                field_ids@.len() == i,
                forall|k: int| 0 <= k < i ==> field_ids@[k] == (
                #[trigger] self.judge_fields@[k]).id,
            decreases self.judge_fields@.len() - i,
        {
            field_ids.push(self.judge_fields[i].id);
            i += 1;
        }
        let mut effect_ids: Vec<u64> = Vec::new();
        let mut i: usize = 0;
        while i < self.click_effects.len()
            invariant
                i <= self.click_effects@.len(),
                effect_ids@.len() == i,
                forall|k: int| 0 <= k < i ==> effect_ids@[k] == (
                #[trigger] self.click_effects@[k]).id,
            decreases self.click_effects@.len() - i,
        {
            effect_ids.push(self.click_effects[i].id);
            i += 1;
        }
        proof {
            assert(ids_unique(note_ids@) == note_ids_unique(self.notes@)) by {
                if ids_unique(note_ids@) {
                    assert forall|a: int, b: int| 0 <= a < b < self.notes@.len() implies (
                    #[trigger] self.notes@[a]).note_id != (#[trigger] self.notes@[b]).note_id by {
                        assert(note_ids@[a] != note_ids@[b]);
                    }
                } else {
                    let (a, b) = choose|a: int, b: int|
                        0 <= a < b < note_ids@.len() && note_ids@[a] == note_ids@[b];
                    assert(self.notes@[a].note_id == self.notes@[b].note_id);
                }
            }
            assert(ids_unique(field_ids@) == field_ids_unique(self.judge_fields@)) by {
                if ids_unique(field_ids@) {
                    assert forall|a: int, b: int| 0 <= a < b < self.judge_fields@.len() implies (
                    #[trigger] self.judge_fields@[a]).id != (#[trigger] self.judge_fields@[b]).id
                        by {
                        assert(field_ids@[a] != field_ids@[b]);
                    }
                } else {
                    let (a, b) = choose|a: int, b: int|
                        0 <= a < b < field_ids@.len() && field_ids@[a] == field_ids@[b];
                    assert(self.judge_fields@[a].id == self.judge_fields@[b].id);
                }
            }
            assert(ids_unique(effect_ids@) == effect_ids_unique(self.click_effects@)) by {
                if ids_unique(effect_ids@) {
                    assert forall|a: int, b: int| 0 <= a < b < self.click_effects@.len() implies (
                    #[trigger] self.click_effects@[a]).id != (
                    #[trigger] self.click_effects@[b]).id by {
                        assert(effect_ids@[a] != effect_ids@[b]);
                    }
                } else {
                    let (a, b) = choose|a: int, b: int|
                        0 <= a < b < effect_ids@.len() && effect_ids@[a] == effect_ids@[b];
                    assert(self.click_effects@[a].id == self.click_effects@[b].id);
                }
            }
        }
        if !(check_ids_unique(&note_ids) && check_ids_unique(&field_ids) && check_ids_unique(
            &effect_ids,
        )) {
            return Err(ChartError::DuplicateId);
        }
        let mut i: usize = 0;
        while i < self.notes.len()
            invariant
                i <= self.notes@.len(),
                chart_ids_unique(*self),
                forall|k: int| 0 <= k < i
                    ==> (#[trigger] self.notes@[k]).judge_type.chain_free(),
            decreases self.notes@.len() - i,
        {
            match &self.notes[i].judge_type {
                JudgeType::Chain(_) | JudgeType::TapChain(_) => {
                    proof {
                        assert(!self.notes@[i as int].judge_type.chain_free());
                    }
                    return Err(ChartError::UnsupportedJudgeType);
                },
                _ => {},
            }
            i += 1;
        }
        let values_ok = self.check_values();
        if !values_ok {
            return Err(ChartError::ValueOutOfRange);
        }
        Ok(())
    }

    /// Decide whether every stored number of the chart is admissible.
    fn check_values(&self) -> (ok: bool)
        ensures
            ok == chart_values_ok(*self),
    {
        let mut i: usize = 0;
        while i < self.notes.len()
            invariant
                i <= self.notes@.len(),
                forall|k: int| 0 <= k < i ==> (#[trigger] self.notes@[k]).values_ok(),
            decreases self.notes@.len() - i,
        {
            if !self.notes[i].check_values() {
                return false;
            }
            i += 1;
        }
        let mut i: usize = 0;
        while i < self.judge_fields.len()
            invariant
                i <= self.judge_fields@.len(),
                forall|k: int| 0 <= k < i ==> (#[trigger] self.judge_fields@[k]).field.wf(),
            decreases self.judge_fields@.len() - i,
        {
            if !self.judge_fields[i].field.check() {
                return false;
            }
            i += 1;
        }
        if !check_shapes(&self.shapes) {
            return false;
        }
        let mut i: usize = 0;
        while i < self.click_effects.len()
            invariant
                i <= self.click_effects@.len(),
                forall|k: int| 0 <= k < i ==> (#[trigger] self.click_effects@[k]).effect.wf(),
            decreases self.click_effects@.len() - i,
        {
            if !self.click_effects[i].effect.check() {
                return false;
            }
            i += 1;
        }
        let mut i: usize = 0;
        while i < self.events.len()
            invariant
                i <= self.events@.len(),
                forall|k: int| 0 <= k < i ==> time_ok((#[trigger] self.events@[k]).time as int),
            decreases self.events@.len() - i,
        {
            if !(0 <= self.events[i].time && self.events[i].time <= CHART_TIME_MAX_MS) {
                return false;
            }
            i += 1;
        }
        -COORD_MAX <= self.size.x && self.size.x <= COORD_MAX && -COORD_MAX <= self.size.y
            && self.size.y <= COORD_MAX
    }
}

} // verus!
