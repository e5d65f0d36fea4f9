//! The playback session: per-play mutable state compiled from a chart.
//!
//! Compiling buckets the chart's notes per judge field, sorted ascending
//! by judge time, sorts shapes by start time and events by time, and
//! zeroes every cursor and counter. The session is then mutated once per
//! tick by the frame scheduler and the judgment engine.

use vstd::prelude::*;
use vstd::multiset::Multiset;
use vstd::seq_lib::group_to_multiset_ensures;
use vstd::seq_lib::to_multiset_insert;
use crate::chart::Chart;
use crate::chart::ChartEvent;
use crate::chart::EffectDef;
use crate::chart::JudgeField;
use crate::chart::Note;
use crate::chart::Shape;
use crate::chart::chart_ok;
use crate::chart::note_ids_unique;
use crate::chart::time_ok;
use crate::chart::CHART_TIME_MAX_MS;
use crate::error::ChartError;
use crate::error::Error;
use crate::error::PlayError;
use crate::judge::JudgeEvent;
use crate::judge::JudgeInfo;
use crate::score::Judge;
use crate::score::Scoring;
use crate::score::NOTE_COUNT_MAX;

verus! {

/// Times of shapes in the render queue stay within this bound (a chart
/// instant shifted by at most one judgable instant).
pub const RENDER_TIME_MAX_MS: i64 = 9_000_000_000_000_000;

/// Coordinates of shapes in the render queue are clamped to this bound.
pub const RENDER_COORD_MAX: i64 = 2_000_000_000_000_000;

/// One judge field's bucket of notes, sorted ascending by judge time,
/// with a parallel record of which notes are already handled (graded, or
/// bound to an open gesture track).
#[derive(Clone, PartialEq, Debug)]
pub struct NoteBucket {
    pub field_id: u64,
    pub notes: Vec<Note>,
    pub handled: Vec<bool>,
}

/// One judge field of the session, with its per-field judging state.
#[derive(Clone, PartialEq, Debug)]
pub struct FieldSlot {
    pub id: u64,
    pub field: JudgeField,
    pub info: JudgeInfo,
}

/// The replay record of a play.
#[derive(Clone, PartialEq, Debug)]
pub struct Replay {
    pub score_history: Vec<u64>,
    pub judge_history_events: Vec<JudgeEvent>,
}

/// How notes are judged during the play.
#[derive(Clone, PartialEq, Debug)]
pub enum PlayMode {
    /// The host submits real pointer input.
    Normal,
    /// The scheduler synthesizes full-credit judgments for due notes.
    Auto,
    /// Replay of a recorded play; no behaviour is defined for it yet, so
    /// such a session is refused when compiled.
    Replay(Replay),
}

/// Whether notes are sorted ascending by judge time.
pub open spec fn sorted_by_judge_time(notes: Seq<Note>) -> bool {
    forall|i: int, j: int| 0 <= i < j < notes.len()
        ==> (#[trigger] notes[i]).judge_time <= (#[trigger] notes[j]).judge_time
}

/// Whether shapes are sorted ascending by start time.
pub open spec fn sorted_by_start_time(shapes: Seq<Shape>) -> bool {
    forall|i: int, j: int| 0 <= i < j < shapes.len()
        ==> (#[trigger] shapes[i]).start_time <= (#[trigger] shapes[j]).start_time
}

/// Whether events are sorted ascending by time.
pub open spec fn sorted_by_event_time(events: Seq<ChartEvent>) -> bool {
    forall|i: int, j: int| 0 <= i < j < events.len()
        ==> (#[trigger] events[i]).time <= (#[trigger] events[j]).time
}

/// How many entries of a handled record are still false.
pub open spec fn count_unhandled(handled: Seq<bool>) -> int
    decreases handled.len(),
{
    if handled.len() == 0 {
        0
    } else {
        (if handled[0] {
            0int
        } else {
            1int
        }) + count_unhandled(handled.drop_first())
    }
}

/// The unhandled count is between zero and the record's length.
pub proof fn lemma_count_unhandled_bounds(handled: Seq<bool>)
    ensures
        0 <= count_unhandled(handled) <= handled.len(),
    decreases handled.len(),
{
    if handled.len() > 0 {
        lemma_count_unhandled_bounds(handled.drop_first());
    }
}

/// Marking one unhandled entry lowers the unhandled count by one.
pub proof fn lemma_count_unhandled_update(handled: Seq<bool>, i: int)
    requires
        0 <= i < handled.len(),
        !handled[i],
    ensures
        count_unhandled(handled.update(i, true)) == count_unhandled(handled) - 1,
    decreases handled.len(),
{
    if i == 0 {
        assert(handled.update(0, true).drop_first() =~= handled.drop_first());
    } else {
        assert(handled.update(i, true).drop_first() =~= handled.drop_first().update(i - 1, true));
        lemma_count_unhandled_update(handled.drop_first(), i - 1);
    }
}

/// An all-false record has as many unhandled entries as its length.
pub proof fn lemma_count_unhandled_all_false(handled: Seq<bool>)
    requires
        forall|i: int| 0 <= i < handled.len() ==> !handled[i],
    ensures
        count_unhandled(handled) == handled.len(),
    decreases handled.len(),
{
    if handled.len() > 0 {
        lemma_count_unhandled_all_false(handled.drop_first());
    }
}

/// Total number of notes across all buckets.
pub open spec fn buckets_len(buckets: Seq<NoteBucket>) -> int
    decreases buckets.len(),
{
    if buckets.len() == 0 {
        0
    } else {
        buckets[0].notes@.len() + buckets_len(buckets.drop_first())
    }
}

/// Total number of unhandled notes across all buckets.
pub open spec fn buckets_unhandled(buckets: Seq<NoteBucket>) -> int
    decreases buckets.len(),
{
    if buckets.len() == 0 {
        0
    } else {
        count_unhandled(buckets[0].handled@) + buckets_unhandled(buckets.drop_first())
    }
}

/// All notes of all buckets, with multiplicity.
pub open spec fn buckets_notes(buckets: Seq<NoteBucket>) -> Multiset<Note>
    decreases buckets.len(),
{
    if buckets.len() == 0 {
        Multiset::empty()
    } else {
        buckets[0].notes@.to_multiset().add(buckets_notes(buckets.drop_first()))
    }
}

/// Total number of open gesture tracks across all field slots.
pub open spec fn slots_tracks(slots: Seq<FieldSlot>) -> int
    decreases slots.len(),
{
    if slots.len() == 0 {
        0
    } else {
        slots[0].info.judge_tracks@.len() + slots_tracks(slots.drop_first())
    }
}

/// Replacing one bucket shifts the bucket sums by that bucket's change.
pub proof fn lemma_buckets_update(buckets: Seq<NoteBucket>, k: int, b: NoteBucket)
    requires
        0 <= k < buckets.len(),
    ensures
        buckets_len(buckets.update(k, b)) == buckets_len(buckets) - buckets[k].notes@.len()
            + b.notes@.len(),
        buckets_unhandled(buckets.update(k, b)) == buckets_unhandled(buckets) - count_unhandled(
            buckets[k].handled@,
        ) + count_unhandled(b.handled@),
        buckets_notes(buckets.update(k, b)).add(buckets[k].notes@.to_multiset())
            == buckets_notes(buckets).add(b.notes@.to_multiset()),
    decreases buckets.len(),
{
    broadcast use group_to_multiset_ensures;
    broadcast use vstd::multiset::group_multiset_axioms;

    if k == 0 {
        assert(buckets.update(0, b).drop_first() =~= buckets.drop_first());
        assert(buckets_notes(buckets.update(0, b)).add(buckets[0].notes@.to_multiset())
            =~= buckets_notes(buckets).add(b.notes@.to_multiset()));
    } else {
        let upd = buckets.update(k, b);
        assert(upd[0] == buckets[0]);
        assert(upd.drop_first() =~= buckets.drop_first().update(k - 1, b));
        assert(buckets.drop_first()[k - 1] == buckets[k]);
        lemma_buckets_update(buckets.drop_first(), k - 1, b);
        assert(buckets_notes(upd) == upd[0].notes@.to_multiset().add(
            buckets_notes(upd.drop_first()),
        ));
        assert(buckets_notes(buckets) == buckets[0].notes@.to_multiset().add(
            buckets_notes(buckets.drop_first()),
        ));
        assert forall|v: Note|
            buckets_notes(upd).add(buckets[k].notes@.to_multiset()).count(v) == buckets_notes(
                buckets,
            ).add(b.notes@.to_multiset()).count(v) by {
            assert(buckets_notes(upd).count(v) == upd[0].notes@.to_multiset().count(v)
                + buckets_notes(upd.drop_first()).count(v));
            assert(buckets_notes(buckets).count(v) == buckets[0].notes@.to_multiset().count(v)
                + buckets_notes(buckets.drop_first()).count(v));
            assert(buckets_notes(buckets.drop_first().update(k - 1, b)).add(
                buckets.drop_first()[k - 1].notes@.to_multiset(),
            ).count(v) == buckets_notes(buckets.drop_first().update(k - 1, b)).count(v)
                + buckets.drop_first()[k - 1].notes@.to_multiset().count(v));
            assert(buckets_notes(buckets.drop_first()).add(b.notes@.to_multiset()).count(v)
                == buckets_notes(buckets.drop_first()).count(v) + b.notes@.to_multiset().count(
                v,
            ));
            assert(buckets_notes(buckets.drop_first().update(k - 1, b)).count(v) + buckets[
                k
            ].notes@.to_multiset().count(v) == buckets_notes(buckets.drop_first()).count(v)
                + b.notes@.to_multiset().count(v));
        }
        assert(buckets_notes(buckets.update(k, b)).add(buckets[k].notes@.to_multiset())
            =~= buckets_notes(buckets).add(b.notes@.to_multiset()));
    }
}

/// Appending a bucket adds its contribution to each bucket sum.
pub proof fn lemma_buckets_push(buckets: Seq<NoteBucket>, b: NoteBucket)
    ensures
        buckets_len(buckets.push(b)) == buckets_len(buckets) + b.notes@.len(),
        buckets_unhandled(buckets.push(b)) == buckets_unhandled(buckets) + count_unhandled(
            b.handled@,
        ),
        buckets_notes(buckets.push(b)) == buckets_notes(buckets).add(b.notes@.to_multiset()),
    decreases buckets.len(),
{
    broadcast use group_to_multiset_ensures;

    if buckets.len() == 0 {
        assert(buckets.push(b)[0] == b);
        assert(buckets.push(b).drop_first() =~= buckets);
        assert(buckets_notes(buckets.push(b)) =~= buckets_notes(buckets).add(
            b.notes@.to_multiset(),
        ));
    } else {
        assert(buckets.push(b)[0] == buckets[0]);
        assert(buckets.push(b).drop_first() =~= buckets.drop_first().push(b));
        lemma_buckets_push(buckets.drop_first(), b);
        assert(buckets_notes(buckets.push(b)) =~= buckets_notes(buckets).add(
            b.notes@.to_multiset(),
        ));
    }
}

/// Bucket totals are never negative.
pub proof fn lemma_buckets_len_nonneg(buckets: Seq<NoteBucket>)
    ensures
        buckets_len(buckets) >= 0,
        buckets_unhandled(buckets) >= 0,
    decreases buckets.len(),
{
    if buckets.len() > 0 {
        lemma_count_unhandled_bounds(buckets[0].handled@);
        lemma_buckets_len_nonneg(buckets.drop_first());
    }
}

/// Replacing one slot shifts the track total by that slot's change.
pub proof fn lemma_slots_update(slots: Seq<FieldSlot>, k: int, slot: FieldSlot)
    requires
        0 <= k < slots.len(),
    ensures
        slots_tracks(slots.update(k, slot)) == slots_tracks(slots)
            - slots[k].info.judge_tracks@.len() + slot.info.judge_tracks@.len(),
    decreases slots.len(),
{
    if k == 0 {
        assert(slots.update(0, slot).drop_first() =~= slots.drop_first());
    } else {
        assert(slots.update(k, slot).drop_first() =~= slots.drop_first().update(k - 1, slot));
        lemma_slots_update(slots.drop_first(), k - 1, slot);
    }
}

/// The track total is never negative.
pub proof fn lemma_slots_tracks_nonneg(slots: Seq<FieldSlot>)
    ensures
        slots_tracks(slots) >= 0,
    decreases slots.len(),
{
    if slots.len() > 0 {
        lemma_slots_tracks_nonneg(slots.drop_first());
    }
}

/// A shape fit for the render queue: like a chart shape, but its start
/// instant (and its tracks' start instants) may have been shifted by a
/// judgment instant, and its coordinates may carry a click-effect
/// anchor's translation.
pub open spec fn shape_render_wf(shape: Shape) -> bool {
    &&& -RENDER_TIME_MAX_MS <= shape.start_time <= RENDER_TIME_MAX_MS
    &&& 0 <= shape.sustain_time <= CHART_TIME_MAX_MS
    &&& -RENDER_COORD_MAX <= shape.position.x <= RENDER_COORD_MAX
    &&& -RENDER_COORD_MAX <= shape.position.y <= RENDER_COORD_MAX
    &&& forall|i: int| 0 <= i < shape.animation@.len() ==> {
        let track = #[trigger] shape.animation@[i];
        &&& -RENDER_TIME_MAX_MS <= track.start_time <= RENDER_TIME_MAX_MS
        &&& -RENDER_COORD_MAX <= track.start_value <= RENDER_COORD_MAX
        &&& crate::chart::linkers_total(track.linkers@) <= CHART_TIME_MAX_MS
        &&& forall|j: int| 0 <= j < track.linkers@.len() ==> {
            &&& time_ok((#[trigger] track.linkers@[j]).sustain_time as int)
            &&& -RENDER_COORD_MAX <= track.linkers@[j].end_value <= RENDER_COORD_MAX
        }
    }
}

/// Shapes holding the same data are interchangeably fit for the render
/// queue.
pub proof fn lemma_shape_like_render_wf(a: Shape, b: Shape)
    requires
        crate::chart::shape_like(a, b),
        shape_render_wf(b),
    ensures
        shape_render_wf(a),
{
    assert forall|i: int| 0 <= i < a.animation@.len() implies {
        let track = #[trigger] a.animation@[i];
        &&& -RENDER_TIME_MAX_MS <= track.start_time <= RENDER_TIME_MAX_MS
        &&& -RENDER_COORD_MAX <= track.start_value <= RENDER_COORD_MAX
        &&& crate::chart::linkers_total(track.linkers@) <= CHART_TIME_MAX_MS
        &&& forall|j: int| 0 <= j < track.linkers@.len() ==> {
            &&& time_ok((#[trigger] track.linkers@[j]).sustain_time as int)
            &&& -RENDER_COORD_MAX <= track.linkers@[j].end_value <= RENDER_COORD_MAX
        }
    } by {
        assert(crate::chart::track_like(a.animation@[i], b.animation@[i]));
        assert(b.animation@[i].start_time == a.animation@[i].start_time);
    }
}

/// A chart-admissible shape is fit for the render queue as it stands.
pub proof fn lemma_chart_shape_render_wf(shape: Shape)
    requires
        shape.wf(),
    ensures
        shape_render_wf(shape),
{
    assert forall|i: int| 0 <= i < shape.animation@.len() implies {
        let track = #[trigger] shape.animation@[i];
        &&& -RENDER_TIME_MAX_MS <= track.start_time <= RENDER_TIME_MAX_MS
        &&& -RENDER_COORD_MAX <= track.start_value <= RENDER_COORD_MAX
        &&& crate::chart::linkers_total(track.linkers@) <= CHART_TIME_MAX_MS
        &&& forall|j: int| 0 <= j < track.linkers@.len() ==> {
            &&& time_ok((#[trigger] track.linkers@[j]).sustain_time as int)
            &&& -RENDER_COORD_MAX <= track.linkers@[j].end_value <= RENDER_COORD_MAX
        }
    } by {
        let track = shape.animation@[i];
        assert(track.wf());
        lemma_linkers_total_nonneg(track.linkers@);
    }
}

/// With admissible segment durations the chain's total is non-negative.
pub proof fn lemma_linkers_total_nonneg(linkers: Seq<crate::chart::Linker>)
    requires
        forall|j: int| 0 <= j < linkers.len()
            ==> 0 <= (#[trigger] linkers[j]).sustain_time,
    ensures
        crate::chart::linkers_total(linkers) >= 0,
    decreases linkers.len(),
{
    if linkers.len() > 0 {
        lemma_linkers_total_nonneg(linkers.drop_first());
    }
}

/// The compiled, mutable state of one play: notes bucketed per judge
/// field, shapes and events sorted by time, the render queue, admission
/// and event cursors, the judged-note record and the scoring
/// accumulator.
pub struct PlayInfo {
    /// Per-field note buckets, each sorted ascending by judge time.
    pub notes: Vec<NoteBucket>,
    /// The session's judge fields with their per-field judging state.
    pub judge_fields: Vec<FieldSlot>,
    /// Click-effect templates of the chart.
    pub click_effects: Vec<EffectDef>,
    /// All chart shapes, sorted ascending by start time.
    pub shapes: Vec<Shape>,
    /// Shapes currently eligible for display.
    pub render_queue: Vec<Shape>,
    /// Current combo.
    pub combo: u64,
    /// Best combo so far.
    pub max_combo: u64,
    /// Exact sum of accuracy contributions, in parts-per-million.
    pub acc_sum_ppm: u64,
    /// How many notes are judged so far.
    pub judged_notes: u64,
    /// How many notes the chart holds.
    pub total_notes: u64,
    /// How notes are judged during this play.
    pub play_mode: PlayMode,
    /// The replay record of this play.
    pub replay: Replay,
    /// Every grade produced so far, in order.
    pub judge_vec: Vec<Judge>,
    /// Terminal flag; irreversible within the session.
    pub is_finished: bool,
    /// How long the chart plays, in milliseconds.
    pub sustain_time: i64,
    /// Monotonic admission cursor into `shapes`.
    pub current_render: usize,
    /// The chart's own time offset, in milliseconds.
    pub offset: i64,
    /// Whether the music track was already started.
    pub is_track_played: bool,
    /// Ids of judged notes; each enters at most once.
    pub judged_note_id: Vec<u64>,
    /// The chart's event timeline, sorted ascending by time.
    pub events: Vec<ChartEvent>,
    /// Monotonic cursor into `events`.
    pub current_event: usize,
    /// The active shader, if any.
    pub current_shader: Option<u64>,
    /// Ids of the shaders the host has loaded.
    pub shaders: Vec<u64>,
}

impl NoteBucket {
    /// The bucket's notes are admissible, sorted by judge time, and the
    /// handled record runs parallel to them.
    pub open spec fn wf(self) -> bool {
        &&& self.handled@.len() == self.notes@.len()
        &&& sorted_by_judge_time(self.notes@)
        &&& forall|i: int| 0 <= i < self.notes@.len() ==> (#[trigger] self.notes@[i]).wf()
        &&& forall|i: int| 0 <= i < self.notes@.len()
            ==> (#[trigger] self.notes@[i]).judge_field_id == self.field_id
    }
}

/// The per-field judging state is consistent with the field's bucket:
/// the cursor stays inside the bucket and everything before it is
/// handled; every open track binds a distinct, handled note of the
/// bucket.
pub open spec fn slot_bucket_ok(slot: FieldSlot, bucket: NoteBucket) -> bool {
    &&& slot.info.current_judge <= bucket.notes@.len()
    &&& forall|i: int| 0 <= i < slot.info.current_judge ==> bucket.handled@[i]
    &&& forall|t: int| 0 <= t < slot.info.judge_tracks@.len() ==> {
        &&& (#[trigger] slot.info.judge_tracks@[t]).wf()
        &&& slot.info.judge_tracks@[t].note_id < bucket.notes@.len()
        &&& bucket.handled@[slot.info.judge_tracks@[t].note_id as int]
    }
    &&& forall|t1: int, t2: int| 0 <= t1 < t2 < slot.info.judge_tracks@.len()
        ==> (#[trigger] slot.info.judge_tracks@[t1]).note_id != (
        #[trigger] slot.info.judge_tracks@[t2]).note_id
}

impl PlayInfo {
    /// The scoring accumulator's view of the session.
    pub open spec fn scoring(self) -> Scoring {
        Scoring {
            judged_notes: self.judged_notes,
            combo: self.combo,
            max_combo: self.max_combo,
            acc_sum_ppm: self.acc_sum_ppm,
        }
    }

    /// Whether a note id is already in the judged record.
    pub open spec fn id_judged(self, id: u64) -> bool {
        exists|i: int| 0 <= i < self.judged_note_id@.len() && self.judged_note_id@[i] == id
    }

    /// Buckets are well formed, keyed uniquely, and no note id appears
    /// twice anywhere.
    pub open spec fn buckets_wf(self) -> bool {
        &&& forall|k: int| 0 <= k < self.notes@.len() ==> (#[trigger] self.notes@[k]).wf()
        &&& forall|k1: int, k2: int| 0 <= k1 < k2 < self.notes@.len()
            ==> (#[trigger] self.notes@[k1]).field_id != (#[trigger] self.notes@[k2]).field_id
        &&& forall|k1: int, i1: int, k2: int, i2: int|
            0 <= k1 < self.notes@.len() && 0 <= i1 < self.notes@[k1].notes@.len() && 0 <= k2
                < self.notes@.len() && 0 <= i2 < self.notes@[k2].notes@.len() && (k1 != k2 || i1
                != i2) ==> (#[trigger] self.notes@[k1].notes@[i1]).note_id != (
            #[trigger] self.notes@[k2].notes@[i2]).note_id
    }

    /// Field slots are well formed, keyed uniquely, and consistent with
    /// their buckets; no tracked note is already judged.
    pub open spec fn slots_wf(self) -> bool {
        &&& forall|k: int| 0 <= k < self.judge_fields@.len()
            ==> (#[trigger] self.judge_fields@[k]).field.wf()
        &&& forall|k1: int, k2: int| 0 <= k1 < k2 < self.judge_fields@.len()
            ==> (#[trigger] self.judge_fields@[k1]).id != (#[trigger] self.judge_fields@[k2]).id
        &&& forall|k: int, k2: int|
            0 <= k < self.judge_fields@.len() && 0 <= k2 < self.notes@.len() && (
            #[trigger] self.judge_fields@[k]).id == (#[trigger] self.notes@[k2]).field_id
                ==> slot_bucket_ok(self.judge_fields@[k], self.notes@[k2])
        &&& forall|k: int, k2: int, t: int|
            0 <= k < self.judge_fields@.len() && 0 <= k2 < self.notes@.len()
                && (#[trigger] self.judge_fields@[k]).id == (#[trigger] self.notes@[k2]).field_id
                && 0 <= t < self.judge_fields@[k].info.judge_tracks@.len()
                && self.judge_fields@[k].info.judge_tracks@[t].note_id
                < self.notes@[k2].notes@.len() ==> !self.id_judged(
                self.notes@[k2].notes@[#[trigger] self.judge_fields@[k].info.judge_tracks@[t].note_id as int].note_id,
            )
    }

    /// A note whose id is in the judged record is handled in its bucket.
    pub open spec fn judged_cover(self) -> bool {
        forall|k: int, i: int|
            #![trigger self.notes@[k].notes@[i]]
            0 <= k < self.notes@.len() && 0 <= i < self.notes@[k].notes@.len()
                && self.id_judged(self.notes@[k].notes@[i].note_id)
                ==> self.notes@[k].handled@[i]
    }

    /// Nothing is judged twice, the counters agree, and the judged and
    /// pending notes together never outnumber the chart's notes.
    pub open spec fn judged_wf(self) -> bool {
        &&& forall|i: int, j: int| 0 <= i < j < self.judged_note_id@.len()
            ==> self.judged_note_id@[i] != self.judged_note_id@[j]
        &&& self.judged_notes == self.judged_note_id@.len()
        &&& self.judged_notes == self.judge_vec@.len()
        &&& forall|i: int| 0 <= i < self.judge_vec@.len()
            ==> (#[trigger] self.judge_vec@[i]).wf()
        &&& self.judged_notes + slots_tracks(self.judge_fields@) + buckets_unhandled(self.notes@)
            <= self.total_notes
        &&& self.scoring().wf(self.total_notes)
    }

    /// Shapes, the render queue, events and effect templates are well
    /// formed and the cursors stay in range.
    pub open spec fn frame_wf(self) -> bool {
        &&& forall|i: int| 0 <= i < self.shapes@.len() ==> (#[trigger] self.shapes@[i]).wf()
        &&& sorted_by_start_time(self.shapes@)
        &&& self.current_render <= self.shapes@.len()
        &&& forall|i: int| 0 <= i < self.render_queue@.len()
            ==> shape_render_wf(#[trigger] self.render_queue@[i])
        &&& forall|i: int| 0 <= i < self.events@.len()
            ==> time_ok((#[trigger] self.events@[i]).time as int)
        &&& sorted_by_event_time(self.events@)
        &&& self.current_event <= self.events@.len()
        &&& forall|i: int| 0 <= i < self.click_effects@.len()
            ==> (#[trigger] self.click_effects@[i]).effect.wf()
        &&& crate::chart::effect_ids_unique(self.click_effects@)
        &&& time_ok(self.sustain_time as int)
        &&& -1_000_000_000_000 <= self.offset <= 1_000_000_000_000
    }

    /// A finished session holds no more playable content.
    pub open spec fn finished_wf(self) -> bool {
        self.is_finished ==> {
            &&& self.notes@.len() == 0
            &&& self.judge_fields@.len() == 0
            &&& self.shapes@.len() == 0
            &&& self.click_effects@.len() == 0
        }
    }

    /// The session invariant: established by compilation, preserved by
    /// every tick of the frame scheduler and the judgment engine.
    pub open spec fn wf(self) -> bool {
        &&& self.buckets_wf()
        &&& self.slots_wf()
        &&& self.judged_cover()
        &&& self.judged_wf()
        &&& self.frame_wf()
        &&& self.finished_wf()
    }

    /// Accuracy so far: the running mean of all grades' contributions,
    /// in parts-per-million.
    pub fn accuracy_ppm(&self) -> (r: u64)
        ensures
            r == self.scoring().spec_accuracy_ppm(),
    {
        if self.judged_notes == 0 {
            0
        } else {
            self.acc_sum_ppm / self.judged_notes
        }
    }

    /// The exact score: `accuracy * (judged/total) * 0.9 * 2e7 +
    /// (max_combo/total) * 0.1 * 2e7`, carried out over the fixed-point
    /// sums.
    pub fn score(&self) -> (r: u64)
        requires
            self.scoring().wf(self.total_notes),
        ensures
            r == self.scoring().spec_score(self.total_notes),
    {
        if self.total_notes == 0 {
            0
        } else {
            proof {
                assert(self.acc_sum_ppm <= 1_000_000 * 1_000_000_000) by (nonlinear_arith)
                    requires
                        self.acc_sum_ppm <= 1_000_000 * self.judged_notes,
                        self.judged_notes <= 1_000_000_000,
                {
                }
            }
            (18 * self.acc_sum_ppm + 2_000_000 * self.max_combo) / self.total_notes
        }
    }
}

/// Cancelling a common summand: if `a + x` equals `c + (x + {n})`, then
/// `a` equals `c + {n}`.
pub proof fn lemma_multiset_cancel<V>(a: Multiset<V>, c: Multiset<V>, x: Multiset<V>, n: V)
    requires
        a.add(x) == c.add(x.insert(n)),
    ensures
        a == c.insert(n),
{
    broadcast use vstd::multiset::group_multiset_axioms;

    assert forall|v: V| a.count(v) == c.insert(n).count(v) by {
        assert(a.add(x).count(v) == c.add(x.insert(n)).count(v));
        assert(a.add(x).count(v) == a.count(v) + x.count(v));
        assert(c.add(x.insert(n)).count(v) == c.count(v) + x.insert(n).count(v));
        assert(x.insert(n).count(v) == x.count(v) + Multiset::singleton(n).count(v));
        assert(c.insert(n).count(v) == c.count(v) + Multiset::singleton(n).count(v));
        if v == n {
            assert(Multiset::singleton(n).count(v) == 1);
        } else {
            assert(Multiset::singleton(n).count(v) == 0);
        }
    }
    assert(a =~= c.insert(n));
}

/// A run of slots with no open tracks has a zero track total.
pub proof fn lemma_slots_tracks_zero(slots: Seq<FieldSlot>)
    requires
        forall|k: int| 0 <= k < slots.len()
            ==> (#[trigger] slots[k]).info.judge_tracks@.len() == 0,
    ensures
        slots_tracks(slots) == 0,
    decreases slots.len(),
{
    if slots.len() > 0 {
        lemma_slots_tracks_zero(slots.drop_first());
    }
}

/// Mutable access to one bucket of a session's bucket list.
fn bucket_mut(buckets: &mut Vec<NoteBucket>, i: usize) -> (b: &mut NoteBucket)
    requires
        i < old(buckets).len(),
    ensures
        *b == old(buckets)@[i as int],
        final(buckets)@ == old(buckets)@.update(i as int, *final(b)),
{
    &mut buckets[i]
}

/// Find the bucket keyed by a judge-field id.
pub fn find_bucket(buckets: &Vec<NoteBucket>, id: u64) -> (r: Option<usize>)
    ensures
        match r {
            Some(k) => k < buckets@.len() && buckets@[k as int].field_id == id,
            None => forall|k: int| 0 <= k < buckets@.len()
                ==> (#[trigger] buckets@[k]).field_id != id,
        },
{
    let mut k: usize = 0;
    while k < buckets.len()
        invariant
            k <= buckets@.len(),
            forall|j: int| 0 <= j < k ==> (#[trigger] buckets@[j]).field_id != id,
        decreases buckets@.len() - k,
    {
        if buckets[k].field_id == id {
            return Some(k);
        }
        k += 1;
    }
    None
}

/// First position whose note is due strictly after `t`, in a bucket
/// sorted by judge time.
fn find_note_pos(notes: &Vec<Note>, t: i64) -> (pos: usize)
    ensures
        pos <= notes@.len(),
        forall|i: int| 0 <= i < pos ==> (#[trigger] notes@[i]).judge_time <= t,
        pos < notes@.len() ==> notes@[pos as int].judge_time > t,
{
    let mut pos: usize = 0;
    while pos < notes.len() && notes[pos].judge_time <= t
        invariant
            pos <= notes@.len(),
            forall|i: int| 0 <= i < pos ==> (#[trigger] notes@[i]).judge_time <= t,
        decreases notes@.len() - pos,
    {
        pos += 1;
    }
    pos
}

/// First position whose shape starts strictly after `t`, in a list
/// sorted by start time.
fn find_shape_pos(shapes: &Vec<Shape>, t: i64) -> (pos: usize)
    ensures
        pos <= shapes@.len(),
        forall|i: int| 0 <= i < pos ==> (#[trigger] shapes@[i]).start_time <= t,
        pos < shapes@.len() ==> shapes@[pos as int].start_time > t,
{
    let mut pos: usize = 0;
    while pos < shapes.len() && shapes[pos].start_time <= t
        invariant
            pos <= shapes@.len(),
            forall|i: int| 0 <= i < pos ==> (#[trigger] shapes@[i]).start_time <= t,
        decreases shapes@.len() - pos,
    {
        pos += 1;
    }
    pos
}

/// First position whose event fires strictly after `t`, in a timeline
/// sorted by time.
fn find_event_pos(events: &Vec<ChartEvent>, t: i64) -> (pos: usize)
    ensures
        pos <= events@.len(),
        forall|i: int| 0 <= i < pos ==> (#[trigger] events@[i]).time <= t,
        pos < events@.len() ==> events@[pos as int].time > t,
{
    let mut pos: usize = 0;
    while pos < events.len() && events[pos].time <= t
        invariant
            pos <= events@.len(),
            forall|i: int| 0 <= i < pos ==> (#[trigger] events@[i]).time <= t,
        decreases events@.len() - pos,
    {
        pos += 1;
    }
    pos
}

impl PlayInfo {
    /// Compile a chart into a fresh play session: notes bucketed per
    /// judge field and sorted ascending by judge time, shapes sorted by
    /// start time, events sorted by time, one cursor per judge field at
    /// zero, every counter zeroed.
    ///
    /// A malformed chart is rejected here with the reason, and never
    /// during a tick: duplicate ids first, then an unsupported chain
    /// judge type, then a number out of range (a chart with more than
    /// [`NOTE_COUNT_MAX`] notes counts as out of range). Replay mode has
    /// no defined behaviour yet and is refused.
    pub fn new(chart: Chart, sustain_time_ms: i64, offset_ms: i64, play_mode: PlayMode) -> (r:
        Result<PlayInfo, Error>)
        requires
            time_ok(sustain_time_ms as int),
            -1_000_000_000_000 <= offset_ms <= 1_000_000_000_000,
        ensures
            r is Ok <==> (chart_ok(chart) && chart.notes@.len() <= NOTE_COUNT_MAX && !(play_mode
                is Replay)),
            !crate::chart::chart_ids_unique(chart) ==> r == Err::<PlayInfo, Error>(
                Error::ChartError(ChartError::DuplicateId),
            ),
            crate::chart::chart_ids_unique(chart) && crate::chart::has_chain_note(chart) ==> r
                == Err::<PlayInfo, Error>(Error::ChartError(ChartError::UnsupportedJudgeType)),
            crate::chart::chart_ids_unique(chart) && !crate::chart::has_chain_note(chart) && !(
            crate::chart::chart_values_ok(chart) && chart.notes@.len() <= NOTE_COUNT_MAX) ==> r
                == Err::<PlayInfo, Error>(Error::ChartError(ChartError::ValueOutOfRange)),
            chart_ok(chart) && chart.notes@.len() <= NOTE_COUNT_MAX && play_mode is Replay ==> r
                == Err::<PlayInfo, Error>(Error::PlayError(PlayError::UnsupportedMode)),
            r matches Ok(s) ==> {
                &&& s.wf()
                &&& s.total_notes == chart.notes@.len()
                &&& buckets_len(s.notes@) == chart.notes@.len()
                &&& buckets_unhandled(s.notes@) == chart.notes@.len()
                &&& buckets_notes(s.notes@) == chart.notes@.to_multiset()
                &&& forall|k: int, i: int|
                    #![trigger s.notes@[k].handled@[i]]
                    0 <= k < s.notes@.len() && 0 <= i < s.notes@[k].handled@.len()
                        ==> !s.notes@[k].handled@[i]
                &&& s.judge_fields@.len() == chart.judge_fields@.len()
                &&& forall|k: int| 0 <= k < chart.judge_fields@.len() ==> {
                    &&& (#[trigger] s.judge_fields@[k]).id == chart.judge_fields@[k].id
                    &&& s.judge_fields@[k].field == chart.judge_fields@[k].field
                    &&& s.judge_fields@[k].info.current_judge == 0
                    &&& s.judge_fields@[k].info.judge_tracks@.len() == 0
                }
                &&& s.scoring() == Scoring::zero()
                &&& s.judge_vec@.len() == 0
                &&& s.judged_note_id@.len() == 0
                &&& s.render_queue@.len() == 0
                &&& !s.is_finished
                &&& !s.is_track_played
                &&& s.current_render == 0
                &&& s.current_event == 0
                &&& s.current_shader is None
                &&& s.shapes@.to_multiset() == chart.shapes@.to_multiset()
                &&& s.events@.to_multiset() == chart.events@.to_multiset()
                &&& s.click_effects@ == chart.click_effects@
                &&& s.shaders@ == chart.shaders@
                &&& s.sustain_time == sustain_time_ms
                &&& s.offset == offset_ms
                &&& s.play_mode == play_mode
                &&& s.replay.score_history@.len() == 0
                &&& s.replay.judge_history_events@.len() == 0
            },
    {
        broadcast use group_to_multiset_ensures;

        match chart.check() {
            Err(e) => {
                return Err(Error::ChartError(e));
            },
            Ok(()) => {},
        }
        if chart.notes.len() as u64 > NOTE_COUNT_MAX {
            return Err(Error::ChartError(ChartError::ValueOutOfRange));
        }
        if matches!(play_mode, PlayMode::Replay(_)) {
            return Err(Error::PlayError(PlayError::UnsupportedMode));
        }
        let ghost chart0 = chart;
        let total = chart.notes.len() as u64;
        let Chart {
            notes: mut notes_src,
            judge_fields: mut fields_src,
            shapes: mut shapes_src,
            click_effects,
            events: events_src,
            shaders,
            size: _,
        } = chart;
        let ghost notes0 = notes_src@;
        let ghost fields0 = fields_src@;
        let ghost shapes0 = shapes_src@;
        let ghost events0 = events_src@;
        let notes_n = notes_src.len();
        let shapes_n = shapes_src.len();
        proof {
            assert(notes0.len() == notes_n);
            assert(shapes0.len() == shapes_n);
        }

        let mut buckets: Vec<NoteBucket> = Vec::new();
        let mut idx: usize = 0;
        proof {
            assert(notes0.take(0) =~= Seq::<Note>::empty());
            assert(buckets_notes(buckets@) =~= notes0.take(0).to_multiset());
        }
        while notes_src.len() > 0
            invariant
                idx + notes_src@.len() == notes0.len(),
                notes0.len() <= usize::MAX,
                notes_src@ == notes0.skip(idx as int),
                note_ids_unique(notes0),
                forall|j: int| 0 <= j < notes0.len() ==> (#[trigger] notes0[j]).wf(),
                buckets_len(buckets@) == idx,
                buckets_unhandled(buckets@) == idx,
                buckets_notes(buckets@) == notes0.take(idx as int).to_multiset(),
                forall|k: int| 0 <= k < buckets@.len() ==> (#[trigger] buckets@[k]).wf(),
                forall|k: int, i: int|
                    #![trigger buckets@[k].handled@[i]]
                    0 <= k < buckets@.len() && 0 <= i < buckets@[k].handled@.len()
                        ==> !buckets@[k].handled@[i],
                forall|k1: int, k2: int| 0 <= k1 < k2 < buckets@.len()
                    ==> (#[trigger] buckets@[k1]).field_id != (
                    #[trigger] buckets@[k2]).field_id,
                forall|k: int, i: int|
                    #![trigger buckets@[k].notes@[i]]
                    0 <= k < buckets@.len() && 0 <= i < buckets@[k].notes@.len() ==> exists|
                        j: int,
                    |
                        0 <= j < idx && buckets@[k].notes@[i] == #[trigger] notes0[j],
                forall|k1: int, i1: int, k2: int, i2: int|
                    0 <= k1 < buckets@.len() && 0 <= i1 < buckets@[k1].notes@.len() && 0 <= k2
                        < buckets@.len() && 0 <= i2 < buckets@[k2].notes@.len() && (k1 != k2 || i1
                        != i2) ==> (#[trigger] buckets@[k1].notes@[i1]).note_id != (
                    #[trigger] buckets@[k2].notes@[i2]).note_id,
            decreases notes_src@.len(),
        {
            let note = notes_src.remove(0);
            proof {
                assert(note == notes0[idx as int]);
                assert(notes_src@ =~= notes0.skip(idx as int + 1));
            }
            let fid = note.judge_field_id;
            let ghost buckets_before = buckets@;
            match find_bucket(&buckets, fid) {
                Some(k) => {
                    let pos = find_note_pos(&buckets[k].notes, note.judge_time);
                    let b = bucket_mut(&mut buckets, k);
                    b.notes.insert(pos, note);
                    b.handled.insert(pos, false);
                    proof {
                        let bk = buckets_before[k as int];
                        let b_after = buckets@[k as int];
                        assert(b_after.notes@ == bk.notes@.insert(pos as int, note));
                        assert(b_after.handled@ == bk.handled@.insert(pos as int, false));
                        assert(buckets@ =~= buckets_before.update(k as int, b_after));
                        lemma_buckets_update(buckets_before, k as int, b_after);
                        assert forall|i: int| 0 <= i < b_after.handled@.len()
                            implies !b_after.handled@[i] by {
                            if i < pos {
                                assert(b_after.handled@[i] == bk.handled@[i]);
                            } else if i > pos {
                                assert(b_after.handled@[i] == bk.handled@[i - 1]);
                            }
                        }
                        lemma_count_unhandled_all_false(b_after.handled@);
                        lemma_count_unhandled_all_false(bk.handled@);
                        assert(b_after.notes@.to_multiset() == bk.notes@.to_multiset().insert(
                            note,
                        )) by {
                            vstd::seq_lib::to_multiset_insert(bk.notes@, pos as int, note);
                        }
                        assert(buckets_notes(buckets@) == notes0.take(
                            idx as int + 1,
                        ).to_multiset()) by {
                            broadcast use group_to_multiset_ensures;

                            lemma_multiset_cancel(
                                buckets_notes(buckets@),
                                notes0.take(idx as int).to_multiset(),
                                bk.notes@.to_multiset(),
                                note,
                            );
                            assert(notes0.take(idx as int + 1) =~= notes0.take(idx as int).push(
                                notes0[idx as int],
                            ));
                            assert(notes0.take(idx as int + 1).to_multiset() == notes0.take(
                                idx as int,
                            ).to_multiset().insert(note));
                        }
                        assert forall|i1: int, j1: int| 0 <= i1 < j1 < b_after.notes@.len()
                            implies (#[trigger] b_after.notes@[i1]).judge_time <= (
                        #[trigger] b_after.notes@[j1]).judge_time by {
                            if j1 < pos {
                            } else if i1 >= pos + 1 {
                                assert(b_after.notes@[i1] == bk.notes@[i1 - 1]);
                                assert(b_after.notes@[j1] == bk.notes@[j1 - 1]);
                            } else if i1 == pos && j1 > pos {
                                assert(b_after.notes@[j1] == bk.notes@[j1 - 1]);
                                assert(bk.notes@[pos as int].judge_time > note.judge_time);
                            } else if i1 < pos && j1 == pos {
                                assert(b_after.notes@[i1] == bk.notes@[i1]);
                            } else {
                                assert(b_after.notes@[i1] == bk.notes@[i1]);
                                assert(b_after.notes@[j1] == bk.notes@[j1 - 1]);
                            }
                        }
                        assert(b_after.wf());
                        assert forall|k9: int, i9: int|
                            #![trigger buckets@[k9].notes@[i9]]
                            0 <= k9 < buckets@.len() && 0 <= i9 < buckets@[k9].notes@.len()
                            implies exists|j: int|
                            0 <= j < idx + 1 && buckets@[k9].notes@[i9] == #[trigger] notes0[j]
                            by {
                            if k9 == k {
                                if i9 == pos {
                                    assert(buckets@[k9].notes@[i9] == notes0[idx as int]);
                                } else {
                                    let iold: int = if i9 < pos {
                                        i9
                                    } else {
                                        i9 - 1
                                    };
                                    assert(buckets@[k9].notes@[i9] == buckets_before[k as int].notes@[iold]);
                                    let j = choose|j: int|
                                        0 <= j < idx && buckets_before[k as int].notes@[iold]
                                            == #[trigger] notes0[j];
                                    assert(buckets@[k9].notes@[i9] == notes0[j]);
                                }
                            } else {
                                assert(buckets@[k9].notes@[i9] == buckets_before[k9].notes@[i9]);
                                let j = choose|j: int|
                                    0 <= j < idx && buckets_before[k9].notes@[i9]
                                        == #[trigger] notes0[j];
                                assert(buckets@[k9].notes@[i9] == notes0[j]);
                            }
                        }
                        assert forall|k1: int, i1: int, k2: int, i2: int|
                            0 <= k1 < buckets@.len() && 0 <= i1 < buckets@[k1].notes@.len() && 0
                                <= k2 < buckets@.len() && 0 <= i2 < buckets@[k2].notes@.len() && (
                            k1 != k2 || i1 != i2) implies (
                        #[trigger] buckets@[k1].notes@[i1]).note_id != (
                        #[trigger] buckets@[k2].notes@[i2]).note_id by {
                            lemma_insert_note_distinct(
                                buckets_before,
                                buckets@,
                                notes0,
                                idx as int,
                                k as int,
                                pos as int,
                                k1,
                                i1,
                                k2,
                                i2,
                            );
                        }
                    }
                },
                None => {
                    let mut nb = NoteBucket {
                        field_id: fid,
                        notes: Vec::new(),
                        handled: Vec::new(),
                    };
                    nb.notes.push(note);
                    nb.handled.push(false);
                    buckets.push(nb);
                    proof {
                        let b_new = buckets@[buckets@.len() - 1];
                        lemma_buckets_push(buckets_before, b_new);
                        assert(buckets@ =~= buckets_before.push(b_new));
                        lemma_count_unhandled_all_false(b_new.handled@);
                        assert(b_new.notes@ =~= Seq::<Note>::empty().push(note));
                        assert(buckets_notes(buckets@) == notes0.take(
                            idx as int + 1,
                        ).to_multiset()) by {
                            broadcast use group_to_multiset_ensures;
                            broadcast use vstd::multiset::group_multiset_axioms;

                            assert(b_new.notes@.to_multiset() == Seq::<Note>::empty().to_multiset().insert(note));
                            assert(Seq::<Note>::empty().to_multiset() =~= Multiset::<Note>::empty());
                            assert(notes0.take(idx as int + 1) =~= notes0.take(idx as int).push(
                                notes0[idx as int],
                            ));
                            assert(notes0.take(idx as int + 1).to_multiset() == notes0.take(
                                idx as int,
                            ).to_multiset().insert(note));
                            assert(buckets_notes(buckets@) =~= notes0.take(
                                idx as int + 1,
                            ).to_multiset());
                        }
                        assert forall|k9: int, i9: int|
                            #![trigger buckets@[k9].notes@[i9]]
                            0 <= k9 < buckets@.len() && 0 <= i9 < buckets@[k9].notes@.len()
                            implies exists|j: int|
                            0 <= j < idx + 1 && buckets@[k9].notes@[i9] == #[trigger] notes0[j]
                            by {
                            if k9 == buckets@.len() - 1 {
                                assert(buckets@[k9].notes@[i9] == notes0[idx as int]);
                            } else {
                                assert(buckets@[k9].notes@[i9] == buckets_before[k9].notes@[i9]);
                                let j = choose|j: int|
                                    0 <= j < idx && buckets_before[k9].notes@[i9]
                                        == #[trigger] notes0[j];
                                assert(buckets@[k9].notes@[i9] == notes0[j]);
                            }
                        }
                        assert forall|k1: int, i1: int, k2: int, i2: int|
                            0 <= k1 < buckets@.len() && 0 <= i1 < buckets@[k1].notes@.len() && 0
                                <= k2 < buckets@.len() && 0 <= i2 < buckets@[k2].notes@.len() && (
                            k1 != k2 || i1 != i2) implies (
                        #[trigger] buckets@[k1].notes@[i1]).note_id != (
                        #[trigger] buckets@[k2].notes@[i2]).note_id by {
                            lemma_push_note_distinct(
                                buckets_before,
                                buckets@,
                                notes0,
                                idx as int,
                                k1,
                                i1,
                                k2,
                                i2,
                            );
                        }
                    }
                },
            }
            idx += 1;
        }
        proof {
            assert(notes0.take(idx as int) =~= notes0);
        }

        let mut slots: Vec<FieldSlot> = Vec::new();
        while fields_src.len() > 0
            invariant
                slots@.len() + fields_src@.len() == fields0.len(),
                fields_src@ == fields0.skip(slots@.len() as int),
                forall|j: int| 0 <= j < fields0.len() ==> (#[trigger] fields0[j]).field.wf(),
                crate::chart::field_ids_unique(fields0),
                forall|k: int| 0 <= k < slots@.len() ==> {
                    &&& (#[trigger] slots@[k]).id == fields0[k].id
                    &&& slots@[k].field == fields0[k].field
                    &&& slots@[k].info.current_judge == 0
                    &&& slots@[k].info.judge_tracks@.len() == 0
                },
            decreases fields_src@.len(),
        {
            let f = fields_src.remove(0);
            proof {
                assert(f == fields0[slots@.len() as int]);
                assert(fields_src@ =~= fields0.skip(slots@.len() as int + 1));
            }
            slots.push(
                FieldSlot {
                    id: f.id,
                    field: f.field,
                    info: JudgeInfo { current_judge: 0, judge_tracks: Vec::new() },
                },
            );
        }

        let mut shapes: Vec<Shape> = Vec::new();
        proof {
            assert(shapes0.skip(0) =~= shapes0);
        }
        let mut done: usize = 0;
        while shapes_src.len() > 0
            invariant
                done + shapes_src@.len() == shapes0.len(),
                shapes0.len() <= usize::MAX,
                shapes_src@ == shapes0.skip(done as int),
                forall|j: int| 0 <= j < shapes0.len() ==> (#[trigger] shapes0[j]).wf(),
                shapes@.to_multiset() == shapes0.take(done as int).to_multiset(),
                sorted_by_start_time(shapes@),
                forall|j: int| 0 <= j < shapes@.len() ==> (#[trigger] shapes@[j]).wf(),
            decreases shapes_src@.len(),
        {
            let s = shapes_src.remove(0);
            proof {
                assert(s == shapes0[done as int]);
                assert(shapes_src@ =~= shapes0.skip(done as int + 1));
            }
            let pos = find_shape_pos(&shapes, s.start_time);
            let ghost shapes_before = shapes@;
            shapes.insert(pos, s);
            proof {
                vstd::seq_lib::to_multiset_insert(shapes_before, pos as int, s);
                assert(shapes@.to_multiset() == shapes0.take(done as int + 1).to_multiset())
                    by {
                    broadcast use group_to_multiset_ensures;

                    assert(shapes0.take(done as int + 1) =~= shapes0.take(done as int).push(
                        shapes0[done as int],
                    ));
                    assert(shapes0.take(done as int + 1).to_multiset() == shapes0.take(
                        done as int,
                    ).to_multiset().insert(s));
                }
                assert forall|i1: int, j1: int| 0 <= i1 < j1 < shapes@.len() implies (
                #[trigger] shapes@[i1]).start_time <= (#[trigger] shapes@[j1]).start_time by {
                    if j1 < pos {
                    } else if i1 >= pos + 1 {
                        assert(shapes@[i1] == shapes_before[i1 - 1]);
                        assert(shapes@[j1] == shapes_before[j1 - 1]);
                    } else if i1 == pos && j1 > pos {
                        assert(shapes@[j1] == shapes_before[j1 - 1]);
                        assert(shapes_before[pos as int].start_time > s.start_time);
                    } else if i1 < pos && j1 == pos {
                        assert(shapes@[i1] == shapes_before[i1]);
                    } else {
                        assert(shapes@[i1] == shapes_before[i1]);
                        assert(shapes@[j1] == shapes_before[j1 - 1]);
                    }
                }
            }
            done += 1;
        }
        proof {
            assert(shapes0.take(done as int) =~= shapes0);
        }

        let mut events: Vec<ChartEvent> = Vec::new();
        let mut ei: usize = 0;
        proof {
            assert(events0.take(0) =~= Seq::<ChartEvent>::empty());
        }
        while ei < events_src.len()
            invariant
                ei <= events0.len(),
                events_src@ == events0,
                forall|j: int| 0 <= j < events0.len()
                    ==> time_ok((#[trigger] events0[j]).time as int),
                events@.to_multiset() == events0.take(ei as int).to_multiset(),
                sorted_by_event_time(events@),
                forall|j: int| 0 <= j < events@.len()
                    ==> time_ok((#[trigger] events@[j]).time as int),
            decreases events0.len() - ei,
        {
            let e = events_src[ei];
            let pos = find_event_pos(&events, e.time);
            let ghost events_before = events@;
            events.insert(pos, e);
            proof {
                vstd::seq_lib::to_multiset_insert(events_before, pos as int, e);
                assert(events@.to_multiset() == events0.take(ei as int + 1).to_multiset()) by {
                    broadcast use group_to_multiset_ensures;

                    assert(events0.take(ei as int + 1) =~= events0.take(ei as int).push(
                        events0[ei as int],
                    ));
                    assert(events0.take(ei as int + 1).to_multiset() == events0.take(
                        ei as int,
                    ).to_multiset().insert(e));
                }
                assert forall|i1: int, j1: int| 0 <= i1 < j1 < events@.len() implies (
                #[trigger] events@[i1]).time <= (#[trigger] events@[j1]).time by {
                    if j1 < pos {
                    } else if i1 >= pos + 1 {
                        assert(events@[i1] == events_before[i1 - 1]);
                        assert(events@[j1] == events_before[j1 - 1]);
                    } else if i1 == pos && j1 > pos {
                        assert(events@[j1] == events_before[j1 - 1]);
                        assert(events_before[pos as int].time > e.time);
                    } else if i1 < pos && j1 == pos {
                        assert(events@[i1] == events_before[i1]);
                    } else {
                        assert(events@[i1] == events_before[i1]);
                        assert(events@[j1] == events_before[j1 - 1]);
                    }
                }
            }
            ei += 1;
        }
        proof {
            assert(events0.take(ei as int) =~= events0);
        }

        let session = PlayInfo {
            notes: buckets,
            judge_fields: slots,
            click_effects,
            shapes,
            render_queue: Vec::new(),
            combo: 0,
            max_combo: 0,
            acc_sum_ppm: 0,
            judged_notes: 0,
            total_notes: total,
            play_mode,
            replay: Replay { score_history: Vec::new(), judge_history_events: Vec::new() },
            judge_vec: Vec::new(),
            is_finished: false,
            sustain_time: sustain_time_ms,
            current_render: 0,
            offset: offset_ms,
            is_track_played: false,
            judged_note_id: Vec::new(),
            events,
            current_event: 0,
            current_shader: None,
            shaders,
        };
        proof {
            lemma_slots_tracks_zero(session.judge_fields@);
        }
        Ok(session)
    }

    /// Re-compile the session from an edited chart, preserving the
    /// score history: the chart is bucketed and sorted afresh, every
    /// note whose id is already in the judged record starts out handled
    /// (so nothing is ever judged twice), the scoring accumulator, the
    /// judged record and the play mode stay as they are, and the render
    /// queue and both cursors restart. The timer is the host's and is
    /// untouched. A malformed chart is refused, as is one that dropped
    /// an already-judged note; the session is then left as it was.
    pub fn refresh_play_info(&mut self, chart: Chart) -> (r: Result<(), Error>)
        requires
            old(self).wf(),
        ensures
            final(self).wf(),
            r is Err ==> *final(self) == *old(self),
            r is Ok <==> (chart_ok(chart) && chart.notes@.len() <= NOTE_COUNT_MAX && forall|
                j: int,
            |
                0 <= j < old(self).judged_note_id@.len() ==> #[trigger] note_id_present(
                    chart,
                    old(self).judged_note_id@[j],
                )),
            r is Ok ==> {
                &&& final(self).scoring() == old(self).scoring()
                &&& final(self).judged_note_id@ == old(self).judged_note_id@
                &&& final(self).judge_vec@ == old(self).judge_vec@
                &&& final(self).play_mode == old(self).play_mode
                &&& final(self).replay == old(self).replay
                &&& final(self).sustain_time == old(self).sustain_time
                &&& final(self).offset == old(self).offset
                &&& final(self).is_track_played == old(self).is_track_played
                &&& final(self).total_notes == chart.notes@.len()
                &&& buckets_len(final(self).notes@) == chart.notes@.len()
                &&& buckets_notes(final(self).notes@) == chart.notes@.to_multiset()
                &&& final(self).judge_fields@.len() == chart.judge_fields@.len()
                &&& forall|k: int| 0 <= k < chart.judge_fields@.len() ==> {
                    &&& (#[trigger] final(self).judge_fields@[k]).id == chart.judge_fields@[k].id
                    &&& final(self).judge_fields@[k].field == chart.judge_fields@[k].field
                    &&& final(self).judge_fields@[k].info.current_judge == 0
                    &&& final(self).judge_fields@[k].info.judge_tracks@.len() == 0
                }
                &&& forall|k: int, i: int|
                    #![trigger final(self).notes@[k].handled@[i]]
                    0 <= k < final(self).notes@.len() && 0 <= i
                        < final(self).notes@[k].notes@.len()
                        ==> final(self).notes@[k].handled@[i]
                        == old(self).judged_note_id@.contains(
                        final(self).notes@[k].notes@[i].note_id)
                &&& final(self).render_queue@.len() == 0
                &&& final(self).current_render == 0
                &&& final(self).current_event == 0
                &&& final(self).current_shader is None
                &&& !final(self).is_finished
                &&& final(self).shapes@.to_multiset() == chart.shapes@.to_multiset()
                &&& final(self).events@.to_multiset() == chart.events@.to_multiset()
                &&& final(self).click_effects@ == chart.click_effects@
                &&& final(self).shaders@ == chart.shaders@
            },
    {
        let ghost judged0 = self.judged_note_id@;
        let ghost chart0 = chart;
        let fresh = match PlayInfo::new(chart, self.sustain_time, self.offset, PlayMode::Normal) {
            Ok(f) => f,
            Err(e) => {
                return Err(e);
            },
        };
        proof {
            assert(fresh.wf());
        }
        let ghost fresh0 = fresh;
        let mut buckets = fresh.notes;
        let slots = fresh.judge_fields;
        let shapes = fresh.shapes;
        let click_effects = fresh.click_effects;
        let events = fresh.events;
        let shaders = fresh.shaders;
        let total = fresh.total_notes;
        let ghost buckets0 = buckets@;
        proof {
            assert(judged0.take(0) =~= Seq::<u64>::empty());
            assert forall|k: int, i: int|
                #![trigger buckets@[k].handled@[i]]
                0 <= k < buckets@.len() && 0 <= i < buckets@[k].notes@.len()
                implies buckets@[k].handled@[i] == judged0.take(0).contains(
                buckets@[k].notes@[i].note_id,
            ) by {
                assert(!fresh0.notes@[k].handled@[i]);
            }
        }
        let mut ji: usize = 0;
        while ji < self.judged_note_id.len()
            invariant
                *self == *old(self),
                old(self).wf(),
                chart0 == chart,
                judged0 == self.judged_note_id@,
                ji <= judged0.len(),
                buckets@.len() == buckets0.len(),
                forall|k: int| 0 <= k < buckets@.len() ==> {
                    &&& (#[trigger] buckets@[k]).notes@ == buckets0[k].notes@
                    &&& buckets@[k].field_id == buckets0[k].field_id
                    &&& buckets@[k].wf()
                },
                forall|k1: int, i1: int, k2: int, i2: int|
                    0 <= k1 < buckets@.len() && 0 <= i1 < buckets@[k1].notes@.len() && 0 <= k2
                        < buckets@.len() && 0 <= i2 < buckets@[k2].notes@.len() && (k1 != k2 || i1
                        != i2) ==> (#[trigger] buckets@[k1].notes@[i1]).note_id != (
                    #[trigger] buckets@[k2].notes@[i2]).note_id,
                buckets_len(buckets@) == chart0.notes@.len(),
                buckets_notes(buckets@) == chart0.notes@.to_multiset(),
                buckets_unhandled(buckets@) == chart0.notes@.len() - ji,
                forall|k: int, i: int|
                    #![trigger buckets@[k].handled@[i]]
                    0 <= k < buckets@.len() && 0 <= i < buckets@[k].notes@.len()
                        ==> buckets@[k].handled@[i] == judged0.take(ji as int).contains(
                        buckets@[k].notes@[i].note_id,
                    ),
                forall|j: int| 0 <= j < ji ==> exists|k: int, i: int|
                    0 <= k < buckets@.len() && 0 <= i < buckets@[k].notes@.len()
                        && buckets@[k].notes@[i].note_id == #[trigger] judged0[j],
            decreases judged0.len() - ji,
        {
            let id = self.judged_note_id[ji];
            match find_note_by_id(&buckets, id) {
                None => {
                    proof {
                        assert forall|i: int| 0 <= i < chart0.notes@.len() implies (
                        #[trigger] chart0.notes@[i]).note_id != id by {
                            if chart0.notes@[i].note_id == id {
                                broadcast use group_to_multiset_ensures;

                                assert(chart0.notes@.contains(chart0.notes@[i]));
                                assert(chart0.notes@.to_multiset().count(chart0.notes@[i]) > 0);
                                assert(buckets_notes(buckets@).count(chart0.notes@[i]) > 0);
                                lemma_buckets_note_position(buckets@, chart0.notes@[i]);
                                let (k9, i9) = choose|k9: int, i9: int|
                                    0 <= k9 < buckets@.len() && 0 <= i9 < buckets@[
                                        k9
                                    ].notes@.len() && buckets@[k9].notes@[i9] == chart0.notes@[i];
                                assert(buckets@[k9].notes@[i9].note_id != id);
                            }
                        }
                    }
                    proof {
                        assert(judged0[ji as int] == id);
                        assert(!note_id_present(chart0, judged0[ji as int])) by {
                            if note_id_present(chart0, judged0[ji as int]) {
                                let i = choose|i: int|
                                    0 <= i < chart0.notes@.len() && (
                                    #[trigger] chart0.notes@[i]).note_id == judged0[ji as int];
                                assert(chart0.notes@[i].note_id != id);
                            }
                        }
                        assert(!note_id_present(chart0, old(self).judged_note_id@[ji as int]));
                    }
                    return Err(Error::ChartError(ChartError::JudgedNoteMissing));
                },
                Some((k, i)) => {
                    proof {
                        assert(!judged0.take(ji as int).contains(id)) by {
                            if judged0.take(ji as int).contains(id) {
                                let w = choose|w: int|
                                    0 <= w < ji && judged0.take(ji as int)[w] == id;
                                assert(judged0[w] == judged0[ji as int]);
                            }
                        }
                        assert(buckets@[k as int].handled@[i as int] == judged0.take(
                            ji as int,
                        ).contains(buckets@[k as int].notes@[i as int].note_id));
                        assert(!buckets@[k as int].handled@[i as int]);
                    }
                    let ghost buckets_before = buckets@;
                    let b = bucket_mut(&mut buckets, k);
                    b.handled.set(i, true);
                    proof {
                        let bk = buckets_before[k as int];
                        let b_after = buckets@[k as int];
                        assert(buckets@ =~= buckets_before.update(k as int, b_after));
                        lemma_buckets_update(buckets_before, k as int, b_after);
                        lemma_count_unhandled_update(bk.handled@, i as int);
                        assert(b_after.wf());
                        assert(buckets_notes(buckets@) =~= buckets_notes(buckets_before)) by {
                            broadcast use vstd::multiset::group_multiset_axioms;

                            assert forall|n: Note|
                                buckets_notes(buckets@).count(n) == buckets_notes(
                                    buckets_before,
                                ).count(n) by {
                                assert(buckets_notes(buckets@).add(
                                    bk.notes@.to_multiset(),
                                ).count(n) == buckets_notes(buckets_before).add(
                                    b_after.notes@.to_multiset(),
                                ).count(n));
                            }
                        }
                        assert forall|k9: int, i9: int|
                            #![trigger buckets@[k9].handled@[i9]]
                            0 <= k9 < buckets@.len() && 0 <= i9 < buckets@[k9].notes@.len()
                            implies buckets@[k9].handled@[i9] == judged0.take(
                            ji as int + 1,
                        ).contains(buckets@[k9].notes@[i9].note_id) by {
                            lemma_take_snoc_contains(
                                judged0,
                                ji as int,
                                buckets@[k9].notes@[i9].note_id,
                            );
                            if k9 == k && i9 == i {
                                assert(buckets@[k9].notes@[i9].note_id == judged0[ji as int]);
                            } else {
                                assert(buckets_before[k9].notes@[i9].note_id
                                    != buckets_before[k as int].notes@[i as int].note_id);
                                assert(buckets@[k9].handled@[i9] == buckets_before[k9].handled@[
                                    i9
                                ]);
                            }
                        }
                        assert(buckets@[k as int].notes@[i as int].note_id == judged0[ji as int]);
                        assert forall|j: int| 0 <= j < ji + 1 implies exists|k9: int, i9: int|
                            0 <= k9 < buckets@.len() && 0 <= i9 < buckets@[k9].notes@.len()
                                && buckets@[k9].notes@[i9].note_id == #[trigger] judged0[j] by {
                            if j == ji {
                                assert(buckets@[k as int].notes@[i as int].note_id == judged0[j]);
                            } else {
                                let (k8, i8) = choose|k8: int, i8: int|
                                    0 <= k8 < buckets_before.len() && 0 <= i8 < buckets_before[
                                        k8
                                    ].notes@.len() && buckets_before[k8].notes@[i8].note_id
                                        == #[trigger] judged0[j];
                                assert(buckets@[k8].notes@[i8].note_id == judged0[j]);
                            }
                        }
                    }
                    ji += 1;
                },
            }
        }
        proof {
            assert(judged0.take(ji as int) =~= judged0);
            assert forall|j: int| 0 <= j < judged0.len() implies #[trigger] note_id_present(
                chart0,
                judged0[j],
            ) by {
                let (k9, i9) = choose|k9: int, i9: int|
                    0 <= k9 < buckets@.len() && 0 <= i9 < buckets@[k9].notes@.len() && buckets@[
                        k9
                    ].notes@[i9].note_id == judged0[j];
                lemma_buckets_notes_member(buckets@, k9, i9);
                broadcast use group_to_multiset_ensures;

                assert(chart0.notes@.to_multiset().count(buckets@[k9].notes@[i9]) > 0);
                assert(chart0.notes@.contains(buckets@[k9].notes@[i9]));
                let w = choose|w: int|
                    0 <= w < chart0.notes@.len() && chart0.notes@[w] == buckets@[k9].notes@[i9];
                assert(chart0.notes@[w].note_id == judged0[j]);
            }
            lemma_count_unhandled_bounds(Seq::<bool>::empty());
        }
        self.notes = buckets;
        self.judge_fields = slots;
        self.shapes = shapes;
        self.click_effects = click_effects;
        self.events = events;
        self.shaders = shaders;
        self.total_notes = total;
        self.render_queue = Vec::new();
        self.current_render = 0;
        self.current_event = 0;
        self.current_shader = None;
        self.is_finished = false;
        proof {
            lemma_slots_tracks_zero(self.judge_fields@);
            crate::session::lemma_buckets_len_nonneg(self.notes@);
            assert(self.judged_cover()) by {
                assert forall|k: int, i: int|
                    #![trigger self.notes@[k].notes@[i]]
                    0 <= k < self.notes@.len() && 0 <= i < self.notes@[k].notes@.len()
                        && self.id_judged(self.notes@[k].notes@[i].note_id)
                    implies self.notes@[k].handled@[i] by {
                    assert(self.judged_note_id@.contains(self.notes@[k].notes@[i].note_id));
                }
            }
            assert(self.slots_wf()) by {
                assert forall|k: int, k2: int|
                    0 <= k < self.judge_fields@.len() && 0 <= k2 < self.notes@.len() && (
                #[trigger] self.judge_fields@[k]).id == (#[trigger] self.notes@[k2]).field_id
                    implies slot_bucket_ok(self.judge_fields@[k], self.notes@[k2]) by {
                    assert(self.judge_fields@[k].info.current_judge == 0);
                    assert(self.judge_fields@[k].info.judge_tracks@.len() == 0);
                }
            }
        }
        Ok(())
    }

}

/// Whether some note of the chart carries the given id.
pub open spec fn note_id_present(chart: Chart, id: u64) -> bool {
    exists|i: int| 0 <= i < chart.notes@.len() && (#[trigger] chart.notes@[i]).note_id == id
}

/// A note standing at some bucket position is counted by the combined
/// multiset.
proof fn lemma_buckets_notes_member(buckets: Seq<NoteBucket>, k: int, i: int)
    requires
        0 <= k < buckets.len(),
        0 <= i < buckets[k].notes@.len(),
    ensures
        buckets_notes(buckets).count(buckets[k].notes@[i]) > 0,
    decreases buckets.len(),
{
    broadcast use group_to_multiset_ensures;
    broadcast use vstd::multiset::group_multiset_axioms;

    if k == 0 {
        assert(buckets[0].notes@.contains(buckets[0].notes@[i]));
    } else {
        lemma_buckets_notes_member(buckets.drop_first(), k - 1, i);
    }
}

/// A note counted by the combined multiset stands at some bucket
/// position.
proof fn lemma_buckets_note_position(buckets: Seq<NoteBucket>, n: Note)
    requires
        buckets_notes(buckets).count(n) > 0,
    ensures
        exists|k: int, i: int|
            0 <= k < buckets.len() && 0 <= i < buckets[k].notes@.len() && buckets[k].notes@[i]
                == n,
    decreases buckets.len(),
{
    broadcast use group_to_multiset_ensures;
    broadcast use vstd::multiset::group_multiset_axioms;

    if buckets.len() == 0 {
        assert(buckets_notes(buckets).count(n) == 0);
    } else if buckets[0].notes@.to_multiset().count(n) > 0 {
        assert(buckets[0].notes@.contains(n));
        let i = choose|i: int| 0 <= i < buckets[0].notes@.len() && buckets[0].notes@[i] == n;
        assert(buckets[0].notes@[i] == n);
    } else {
        lemma_buckets_note_position(buckets.drop_first(), n);
        let (k, i) = choose|k: int, i: int|
            0 <= k < buckets.drop_first().len() && 0 <= i < buckets.drop_first()[k].notes@.len()
                && buckets.drop_first()[k].notes@[i] == n;
        assert(buckets[k + 1].notes@[i] == n);
    }
}

/// Extending a scanned prefix of ids by one changes membership only for
/// the scanned id.
proof fn lemma_take_snoc_contains(ids: Seq<u64>, i: int, x: u64)
    requires
        0 <= i < ids.len(),
    ensures
        ids.take(i + 1).contains(x) == (ids.take(i).contains(x) || ids[i] == x),
{
    if ids.take(i + 1).contains(x) {
        let w = choose|w: int| 0 <= w < ids.take(i + 1).len() && #[trigger] ids.take(i + 1)[w]
            == x;
        if w < i {
            assert(ids.take(i)[w] == x);
        }
    }
    if ids.take(i).contains(x) {
        let w = choose|w: int| 0 <= w < ids.take(i).len() && ids.take(i)[w] == x;
        assert(ids.take(i + 1)[w] == x);
    }
    if ids[i] == x {
        assert(ids.take(i + 1)[i] == x);
    }
}

/// Find any bucket position holding the note with a given id.
fn find_note_by_id(buckets: &Vec<NoteBucket>, id: u64) -> (r: Option<(usize, usize)>)
    ensures
        match r {
            Some((k, i)) => k < buckets@.len() && i < buckets@[k as int].notes@.len()
                && buckets@[k as int].notes@[i as int].note_id == id,
            None => forall|k: int, i: int|
                #![trigger buckets@[k].notes@[i]]
                0 <= k < buckets@.len() && 0 <= i < buckets@[k].notes@.len()
                    ==> buckets@[k].notes@[i].note_id != id,
        },
{
    let mut k: usize = 0;
    while k < buckets.len()
        invariant
            k <= buckets@.len(),
            forall|k9: int, i9: int|
                #![trigger buckets@[k9].notes@[i9]]
                0 <= k9 < k && 0 <= i9 < buckets@[k9].notes@.len()
                    ==> buckets@[k9].notes@[i9].note_id != id,
        decreases buckets@.len() - k,
    {
        let mut i: usize = 0;
        while i < buckets[k].notes.len()
            invariant
                k < buckets@.len(),
                i <= buckets@[k as int].notes@.len(),
                forall|i9: int| 0 <= i9 < i
                    ==> buckets@[k as int].notes@[i9].note_id != id,
            decreases buckets@[k as int].notes@.len() - i,
        {
            if buckets[k].notes[i].note_id == id {
                return Some((k, i));
            }
            i += 1;
        }
        k += 1;
    }
    None
}

/// Every note of a pre-state bucket list is one of the first `idx` chart
/// notes.
pub open spec fn buckets_from_prefix(
    buckets: Seq<NoteBucket>,
    notes0: Seq<Note>,
    idx: int,
) -> bool {
    forall|k: int, i: int|
        #![trigger buckets[k].notes@[i]]
        0 <= k < buckets.len() && 0 <= i < buckets[k].notes@.len() ==> exists|j: int|
            0 <= j < idx && buckets[k].notes@[i] == #[trigger] notes0[j]
}

/// No note id appears at two distinct positions of the bucket list.
pub open spec fn buckets_ids_distinct(buckets: Seq<NoteBucket>) -> bool {
    forall|k1: int, i1: int, k2: int, i2: int|
        0 <= k1 < buckets.len() && 0 <= i1 < buckets[k1].notes@.len() && 0 <= k2 < buckets.len()
            && 0 <= i2 < buckets[k2].notes@.len() && (k1 != k2 || i1 != i2) ==> (
        #[trigger] buckets[k1].notes@[i1]).note_id != (#[trigger] buckets[k2].notes@[i2]).note_id
}

/// Inserting the next chart note into one bucket keeps all note ids at
/// distinct positions distinct.
proof fn lemma_insert_note_distinct(
    before: Seq<NoteBucket>,
    after: Seq<NoteBucket>,
    notes0: Seq<Note>,
    idx: int,
    k: int,
    pos: int,
    k1: int,
    i1: int,
    k2: int,
    i2: int,
)
    requires
        note_ids_unique(notes0),
        0 <= idx < notes0.len(),
        0 <= k < before.len(),
        0 <= pos <= before[k].notes@.len(),
        after.len() == before.len(),
        forall|k9: int| 0 <= k9 < after.len() && k9 != k ==> after[k9] == before[k9],
        after[k].notes@ == before[k].notes@.insert(pos, notes0[idx]),
        buckets_from_prefix(before, notes0, idx),
        buckets_ids_distinct(before),
        0 <= k1 < after.len(),
        0 <= i1 < after[k1].notes@.len(),
        0 <= k2 < after.len(),
        0 <= i2 < after[k2].notes@.len(),
        k1 != k2 || i1 != i2,
    ensures
        after[k1].notes@[i1].note_id != after[k2].notes@[i2].note_id,
{
    let new_note = notes0[idx];
    if k1 == k && i1 == pos && k2 == k && i2 == pos {
        assert(false);
    } else if k1 == k && i1 == pos {
        assert(after[k1].notes@[i1] == new_note);
        lemma_old_position(before, after, notes0, idx, k, pos, k2, i2);
    } else if k2 == k && i2 == pos {
        assert(after[k2].notes@[i2] == new_note);
        lemma_old_position(before, after, notes0, idx, k, pos, k1, i1);
    } else {
        let o1: int = if k1 == k && i1 > pos {
            i1 - 1
        } else {
            i1
        };
        let o2: int = if k2 == k && i2 > pos {
            i2 - 1
        } else {
            i2
        };
        assert(after[k1].notes@[i1] == before[k1].notes@[o1]);
        assert(after[k2].notes@[i2] == before[k2].notes@[o2]);
        assert(k1 != k2 || o1 != o2);
        assert(before[k1].notes@[o1].note_id != before[k2].notes@[o2].note_id);
    }
}

/// A position of the updated bucket list other than the insertion point
/// holds one of the first `idx` chart notes, whose id differs from the
/// inserted note's.
proof fn lemma_old_position(
    before: Seq<NoteBucket>,
    after: Seq<NoteBucket>,
    notes0: Seq<Note>,
    idx: int,
    k: int,
    pos: int,
    k9: int,
    i9: int,
)
    requires
        note_ids_unique(notes0),
        0 <= idx < notes0.len(),
        0 <= k < before.len(),
        0 <= pos <= before[k].notes@.len(),
        after.len() == before.len(),
        forall|k8: int| 0 <= k8 < after.len() && k8 != k ==> after[k8] == before[k8],
        after[k].notes@ == before[k].notes@.insert(pos, notes0[idx]),
        buckets_from_prefix(before, notes0, idx),
        0 <= k9 < after.len(),
        0 <= i9 < after[k9].notes@.len(),
        !(k9 == k && i9 == pos),
    ensures
        after[k9].notes@[i9].note_id != notes0[idx].note_id,
{
    let o: int = if k9 == k && i9 > pos {
        i9 - 1
    } else {
        i9
    };
    assert(after[k9].notes@[i9] == before[k9].notes@[o]);
    let j = choose|j: int| 0 <= j < idx && before[k9].notes@[o] == #[trigger] notes0[j];
    assert(notes0[j].note_id != notes0[idx].note_id);
}

/// Appending a fresh single-note bucket for the next chart note keeps
/// all note ids at distinct positions distinct.
proof fn lemma_push_note_distinct(
    before: Seq<NoteBucket>,
    after: Seq<NoteBucket>,
    notes0: Seq<Note>,
    idx: int,
    k1: int,
    i1: int,
    k2: int,
    i2: int,
)
    requires
        note_ids_unique(notes0),
        0 <= idx < notes0.len(),
        after.len() == before.len() + 1,
        forall|k9: int| 0 <= k9 < before.len() ==> after[k9] == before[k9],
        after[before.len() as int].notes@ == Seq::<Note>::empty().push(notes0[idx]),
        buckets_from_prefix(before, notes0, idx),
        buckets_ids_distinct(before),
        0 <= k1 < after.len(),
        0 <= i1 < after[k1].notes@.len(),
        0 <= k2 < after.len(),
        0 <= i2 < after[k2].notes@.len(),
        k1 != k2 || i1 != i2,
    ensures
        after[k1].notes@[i1].note_id != after[k2].notes@[i2].note_id,
{
    let last = before.len() as int;
    if k1 == last && k2 == last {
        assert(i1 == 0 && i2 == 0);
        assert(false);
    } else if k1 == last {
        assert(after[k1].notes@[i1] == notes0[idx]);
        let j = choose|j: int| 0 <= j < idx && before[k2].notes@[i2] == #[trigger] notes0[j];
        assert(notes0[j].note_id != notes0[idx].note_id);
    } else if k2 == last {
        assert(after[k2].notes@[i2] == notes0[idx]);
        let j = choose|j: int| 0 <= j < idx && before[k1].notes@[i1] == #[trigger] notes0[j];
        assert(notes0[j].note_id != notes0[idx].note_id);
    } else {
        assert(before[k1].notes@[i1].note_id != before[k2].notes@[i2].note_id);
    }
}

} // verus!
