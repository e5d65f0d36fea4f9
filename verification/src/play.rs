//! The per-tick engines: the judgment engine that consumes pointer input
//! and resolves gestures and note hits into grades, and the frame
//! scheduler that advances the session between ticks.
//!
//! Every grade runs through the same three primitive steps — mark the
//! note handled in its bucket, record the grade (judged record, click
//! effect, scoring) — so the session invariant is re-established after
//! each one, and a note id can enter the judged record only once.

use vstd::prelude::*;
use crate::chart::ClickEffect;
use crate::chart::Shape;
use crate::chart::EffectDef;
use crate::effects::effect_anchor;
use crate::effects::EFFECT_TIME_MAX_MS;
use crate::judge::Click;
use crate::judge::JudgeEvent;
use crate::judge::JudgeTrack;
use crate::score::apply_grade;
use crate::score::Judge;
use crate::session::slot_bucket_ok;
use crate::session::buckets_unhandled;
use crate::session::lemma_buckets_update;
use crate::session::lemma_count_unhandled_update;
use crate::session::lemma_slots_update;
use crate::session::slots_tracks;
use crate::session::FieldSlot;
use crate::session::NoteBucket;
use crate::session::PlayInfo;

verus! {

/// Mutable access to one field slot of a session's slot list.
fn slot_mut(slots: &mut Vec<FieldSlot>, i: usize) -> (slot: &mut FieldSlot)
    requires
        i < old(slots).len(),
    ensures
        *slot == old(slots)@[i as int],
        final(slots)@ == old(slots)@.update(i as int, *final(slot)),
{
    &mut slots[i]
}

/// Mutable access to one bucket of a session's bucket list.
fn bucket_mut(buckets: &mut Vec<NoteBucket>, i: usize) -> (b: &mut NoteBucket)
    requires
        i < old(buckets).len(),
    ensures
        *b == old(buckets)@[i as int],
        final(buckets)@ == old(buckets)@.update(i as int, *final(b)),
{
    &mut buckets[i]
}

/// Find a click-effect template by id.
fn find_effect(effects: &Vec<EffectDef>, id: u64) -> (r: Option<usize>)
    ensures
        match r {
            Some(e) => e < effects@.len() && effects@[e as int].id == id,
            None => forall|e: int| 0 <= e < effects@.len()
                ==> (#[trigger] effects@[e]).id != id,
        },
{
    let mut e: usize = 0;
    while e < effects.len()
        invariant
            e <= effects@.len(),
            forall|j: int| 0 <= j < e ==> (#[trigger] effects@[j]).id != id,
        decreases effects@.len() - e,
    {
        if effects[e].id == id {
            return Some(e);
        }
        e += 1;
    }
    None
}

impl PlayInfo {
    /// Feed one grade to the scoring accumulator: the judged count grows
    /// by one, the combo resets on Fade or Miss and grows otherwise, the
    /// best combo keeps up, and the grade's contribution joins the
    /// accuracy sum.
    fn caculate(&mut self, judge: Judge)
        requires
            judge.wf(),
            old(self).scoring().wf(old(self).total_notes),
            old(self).judged_notes < old(self).total_notes,
        ensures
            final(self).scoring() == apply_grade(old(self).scoring(), judge),
            final(self).judge_vec@ == old(self).judge_vec@.push(judge),
            *final(self) == (PlayInfo {
                combo: final(self).combo,
                max_combo: final(self).max_combo,
                acc_sum_ppm: final(self).acc_sum_ppm,
                judged_notes: final(self).judged_notes,
                judge_vec: final(self).judge_vec,
                ..*old(self)
            }),
    {
        self.judged_notes = self.judged_notes + 1;
        match judge {
            Judge::Fade | Judge::Miss => {
                self.combo = 0;
            },
            _ => {
                self.combo = self.combo + 1;
            },
        }
        if self.combo > self.max_combo {
            self.max_combo = self.combo;
        }
        let contribution = judge.contribution_ppm();
        proof {
            let ghost j0 = old(self).judged_notes as int;
            assert(old(self).acc_sum_ppm + contribution <= 1_000_000 * j0 + 1_000_000);
            assert(1_000_000 * j0 + 1_000_000 == 1_000_000 * (j0 + 1)) by (nonlinear_arith);
            assert(1_000_000 * (j0 + 1) <= 1_000_000 * 1_000_000_000) by (nonlinear_arith)
                requires
                    j0 + 1 <= 1_000_000_000,
            {
            }
        }
        self.acc_sum_ppm = self.acc_sum_ppm + contribution;
        self.judge_vec.push(judge);
    }

    /// Mark one note of one bucket handled.
    fn mark_note_handled(&mut self, bki: usize, i: usize)
        requires
            old(self).wf(),
            bki < old(self).notes@.len(),
            i < old(self).notes@[bki as int].notes@.len(),
            !old(self).notes@[bki as int].handled@[i as int],
        ensures
            final(self).wf(),
            final(self).notes@.len() == old(self).notes@.len(),
            final(self).notes@[bki as int].notes@ == old(self).notes@[bki as int].notes@,
            final(self).notes@[bki as int].field_id == old(self).notes@[bki as int].field_id,
            final(self).notes@[bki as int].handled@ == old(self).notes@[bki as int].handled@
                .update(i as int, true),
            forall|k: int| 0 <= k < old(self).notes@.len() && k != bki
                ==> final(self).notes@[k] == old(self).notes@[k],
            buckets_unhandled(final(self).notes@) == buckets_unhandled(old(self).notes@) - 1,
            *final(self) == (PlayInfo { notes: final(self).notes, ..*old(self) }),
    {
        let ghost buckets_before = self.notes@;
        let b = bucket_mut(&mut self.notes, bki);
        b.handled.set(i, true);
        proof {
            let bk = buckets_before[bki as int];
            let b_after = self.notes@[bki as int];
            assert(self.notes@ =~= buckets_before.update(bki as int, b_after));
            lemma_buckets_update(buckets_before, bki as int, b_after);
            lemma_count_unhandled_update(bk.handled@, i as int);
            assert(b_after.wf());
            assert(self.buckets_wf()) by {
                assert forall|k1: int, i1: int, k2: int, i2: int|
                    0 <= k1 < self.notes@.len() && 0 <= i1 < self.notes@[k1].notes@.len() && 0
                        <= k2 < self.notes@.len() && 0 <= i2 < self.notes@[k2].notes@.len() && (k1
                        != k2 || i1 != i2) implies (
                #[trigger] self.notes@[k1].notes@[i1]).note_id != (
                #[trigger] self.notes@[k2].notes@[i2]).note_id by {
                    assert(self.notes@[k1].notes@ == buckets_before[k1].notes@);
                    assert(self.notes@[k2].notes@ == buckets_before[k2].notes@);
                    assert(buckets_before[k1].notes@[i1].note_id
                        != buckets_before[k2].notes@[i2].note_id);
                }
            }
            assert(self.slots_wf()) by {
                assert forall|k: int, k2: int|
                    0 <= k < self.judge_fields@.len() && 0 <= k2 < self.notes@.len() && (
                #[trigger] self.judge_fields@[k]).id == (#[trigger] self.notes@[k2]).field_id
                    implies slot_bucket_ok(self.judge_fields@[k], self.notes@[k2]) by {
                    assert(slot_bucket_ok(old(self).judge_fields@[k], buckets_before[k2]));
                }
            }
            assert(self.judged_cover()) by {
                assert forall|k: int, i9: int|
                    #![trigger self.notes@[k].notes@[i9]]
                    0 <= k < self.notes@.len() && 0 <= i9 < self.notes@[k].notes@.len()
                        && self.id_judged(self.notes@[k].notes@[i9].note_id)
                    implies self.notes@[k].handled@[i9] by {
                    assert(self.notes@[k].notes@[i9] == buckets_before[k].notes@[i9]);
                    assert(old(self).notes@[k].handled@[i9]);
                }
            }
        }
    }

    /// Whether no open track of the session is bound to note `i` of
    /// bucket `bki`.
    pub open spec fn untracked(self, bki: int, i: int) -> bool {
        forall|k: int, t: int|
            0 <= k < self.judge_fields@.len() && (#[trigger] self.judge_fields@[k]).id
                == self.notes@[bki].field_id && 0 <= t
                < self.judge_fields@[k].info.judge_tracks@.len()
                ==> (#[trigger] self.judge_fields@[k].info.judge_tracks@[t]).note_id != i
    }

    /// Record one produced grade for note `i` of bucket `bki`: insert
    /// the note id into the judged record, optionally spawn the note's
    /// click effect at its resolved anchor, and feed the grade to the
    /// scoring accumulator.
    fn record_grade(&mut self, bki: usize, i: usize, judge: Judge, time_ms: i64,
        show_click_effect: bool)
        requires
            old(self).wf(),
            bki < old(self).notes@.len(),
            i < old(self).notes@[bki as int].notes@.len(),
            old(self).notes@[bki as int].handled@[i as int],
            !old(self).id_judged(old(self).notes@[bki as int].notes@[i as int].note_id),
            old(self).untracked(bki as int, i as int),
            old(self).judged_notes + slots_tracks(old(self).judge_fields@) + buckets_unhandled(
                old(self).notes@,
            ) < old(self).total_notes,
            judge.wf(),
            -EFFECT_TIME_MAX_MS <= time_ms <= EFFECT_TIME_MAX_MS,
        ensures
            final(self).wf(),
            final(self).judged_note_id@ == old(self).judged_note_id@.push(
                old(self).notes@[bki as int].notes@[i as int].note_id,
            ),
            final(self).judge_vec@ == old(self).judge_vec@.push(judge),
            final(self).scoring() == apply_grade(old(self).scoring(), judge),
            final(self).render_queue@.len() >= old(self).render_queue@.len(),
            final(self).render_queue@.take(old(self).render_queue@.len() as int) == old(
                self,
            ).render_queue@,
            !show_click_effect ==> final(self).render_queue@ == old(self).render_queue@,
            *final(self) == (PlayInfo {
                combo: final(self).combo,
                max_combo: final(self).max_combo,
                acc_sum_ppm: final(self).acc_sum_ppm,
                judged_notes: final(self).judged_notes,
                judge_vec: final(self).judge_vec,
                judged_note_id: final(self).judged_note_id,
                render_queue: final(self).render_queue,
                ..*old(self)
            }),
    {
        proof {
            crate::session::lemma_slots_tracks_nonneg(self.judge_fields@);
            crate::session::lemma_buckets_len_nonneg(self.notes@);
        }
        let note_id = self.notes[bki].notes[i].note_id;
        if show_click_effect {
            let anchor = effect_anchor(&self.notes[bki].notes[i], &self.render_queue);
            let effect_id = self.notes[bki].notes[i].click_effect_id;
            let ghost queue_before = self.render_queue@;
            let mut fx: Vec<Shape> = match find_effect(&self.click_effects, effect_id) {
                Some(e) => self.click_effects[e].effect.get_shape(time_ms, &judge, anchor,
                    note_id),
                None => {
                    let fallback = ClickEffect::default();
                    fallback.get_shape(time_ms, &judge, anchor, note_id)
                },
            };
            proof {
                assert(self.render_queue@.take(queue_before.len() as int) =~= queue_before);
            }
            while fx.len() > 0
                invariant
                    forall|j: int| 0 <= j < fx@.len()
                        ==> crate::session::shape_render_wf(#[trigger] fx@[j]),
                    self.render_queue@.take(queue_before.len() as int) == queue_before,
                    self.render_queue@.len() >= queue_before.len(),
                    forall|j: int| 0 <= j < self.render_queue@.len()
                        ==> crate::session::shape_render_wf(#[trigger] self.render_queue@[j]),
                    *self == (PlayInfo { render_queue: self.render_queue, ..*old(self) }),
                decreases fx@.len(),
            {
                let shape = fx.remove(0);
                self.render_queue.push(shape);
                proof {
                    assert(self.render_queue@.take(queue_before.len() as int) =~= queue_before);
                }
            }
        }
        let ghost mid = *self;
        self.judged_note_id.push(note_id);
        self.caculate(judge);
        proof {
            let pre = *old(self);
            assert(self.judged_note_id@ == pre.judged_note_id@.push(note_id));
            let oldlen = pre.judged_note_id@.len() as int;
            assert(self.id_judged(note_id)) by {
                assert(self.judged_note_id@[oldlen] == note_id);
            }
            assert forall|id: u64| #[trigger] pre.id_judged(id) implies self.id_judged(id) by {
                let j = choose|j: int|
                    0 <= j < pre.judged_note_id@.len() && pre.judged_note_id@[j] == id;
                assert(self.judged_note_id@[j] == id);
            }
            assert forall|id: u64| #[trigger] self.id_judged(id) implies (pre.id_judged(id) || id
                == note_id) by {
                let j = choose|j: int|
                    0 <= j < self.judged_note_id@.len() && self.judged_note_id@[j] == id;
                if j < oldlen {
                    assert(pre.judged_note_id@[j] == id);
                }
            }
            assert(self.buckets_wf()) by {
                assert(self.notes@ == pre.notes@);
            }
            assert(self.slots_wf()) by {
                assert forall|k: int, k2: int, t: int|
                    0 <= k < self.judge_fields@.len() && 0 <= k2 < self.notes@.len()
                        && (#[trigger] self.judge_fields@[k]).id == (
                    #[trigger] self.notes@[k2]).field_id && 0 <= t
                        < self.judge_fields@[k].info.judge_tracks@.len()
                        && self.judge_fields@[k].info.judge_tracks@[t].note_id
                        < self.notes@[k2].notes@.len() implies !self.id_judged(
                    self.notes@[k2].notes@[#[trigger] self.judge_fields@[k].info.judge_tracks@[t].note_id as int].note_id,
                ) by {
                    let ti = self.judge_fields@[k].info.judge_tracks@[t].note_id as int;
                    let tid = self.notes@[k2].notes@[ti].note_id;
                    assert(!pre.id_judged(tid));
                    if k2 == bki {
                        assert(ti != i);
                        assert(tid != note_id);
                    } else {
                        assert(tid != note_id);
                    }
                    if self.id_judged(tid) {
                        assert(pre.id_judged(tid) || tid == note_id);
                        assert(false);
                    }
                }
            }
            assert(self.judged_cover()) by {
                assert forall|k: int, i9: int|
                    #![trigger self.notes@[k].notes@[i9]]
                    0 <= k < self.notes@.len() && 0 <= i9 < self.notes@[k].notes@.len()
                        && self.id_judged(self.notes@[k].notes@[i9].note_id)
                    implies self.notes@[k].handled@[i9] by {
                    let nid = self.notes@[k].notes@[i9].note_id;
                    if pre.id_judged(nid) {
                        assert(pre.notes@[k].handled@[i9]);
                    } else {
                        assert(nid == note_id);
                        if k != bki || i9 != i {
                            assert(pre.notes@[k].notes@[i9].note_id != pre.notes@[
                                bki as int
                            ].notes@[i as int].note_id);
                            assert(false);
                        }
                    }
                }
            }
            assert(self.judged_wf()) by {
                assert forall|a: int, b: int| 0 <= a < b < self.judged_note_id@.len()
                    implies self.judged_note_id@[a] != self.judged_note_id@[b] by {
                    if b < oldlen {
                        assert(pre.judged_note_id@[a] != pre.judged_note_id@[b]);
                    } else {
                        assert(self.judged_note_id@[b] == note_id);
                        assert(pre.judged_note_id@[a] == self.judged_note_id@[a]);
                        if self.judged_note_id@[a] == note_id {
                            assert(pre.id_judged(note_id));
                            assert(false);
                        }
                    }
                }
                assert forall|j: int| 0 <= j < self.judge_vec@.len() implies (
                #[trigger] self.judge_vec@[j]).wf() by {
                    if j < pre.judge_vec@.len() {
                        assert(pre.judge_vec@[j].wf());
                    }
                }
                crate::score::lemma_apply_grade_wf(pre.scoring(), judge, pre.total_notes);
            }
        }
    }
    /// Open a gesture track on slot `k` for note `i` of the slot's
    /// bucket `bki`, bound to the pointer `click_id` at `position`; the
    /// note counts as handled from here on.
    fn open_track(&mut self, k: usize, bki: usize, i: usize, click_id: u64,
        position: crate::chart::Vec2, time_ms: i64)
        requires
            old(self).wf(),
            k < old(self).judge_fields@.len(),
            bki < old(self).notes@.len(),
            old(self).judge_fields@[k as int].id == old(self).notes@[bki as int].field_id,
            i < old(self).notes@[bki as int].notes@.len(),
            !old(self).notes@[bki as int].handled@[i as int],
            crate::judge::click_coord_ok(position),
            -EFFECT_TIME_MAX_MS <= time_ms <= EFFECT_TIME_MAX_MS,
        ensures
            final(self).wf(),
            final(self).notes@.len() == old(self).notes@.len(),
            final(self).notes@[bki as int].notes@ == old(self).notes@[bki as int].notes@,
            final(self).notes@[bki as int].field_id == old(self).notes@[bki as int].field_id,
            final(self).notes@[bki as int].handled@ == old(self).notes@[bki as int].handled@
                .update(i as int, true),
            forall|k9: int| 0 <= k9 < old(self).notes@.len() && k9 != bki
                ==> final(self).notes@[k9] == old(self).notes@[k9],
            final(self).judge_fields@.len() == old(self).judge_fields@.len(),
            forall|k9: int| 0 <= k9 < old(self).judge_fields@.len() && k9 != k
                ==> final(self).judge_fields@[k9] == old(self).judge_fields@[k9],
            final(self).judge_fields@[k as int].id == old(self).judge_fields@[k as int].id,
            final(self).judge_fields@[k as int].field == old(self).judge_fields@[k as int].field,
            final(self).judge_fields@[k as int].info.current_judge == old(
                self,
            ).judge_fields@[k as int].info.current_judge,
            final(self).judge_fields@[k as int].info.judge_tracks@ == old(
                self,
            ).judge_fields@[k as int].info.judge_tracks@.push(
                JudgeTrack {
                    note_id: i,
                    linked_click: click_id,
                    start_time: time_ms,
                    last_position: position,
                },
            ),
            slots_tracks(final(self).judge_fields@) == slots_tracks(old(self).judge_fields@) + 1,
            buckets_unhandled(final(self).notes@) == buckets_unhandled(old(self).notes@) - 1,
            *final(self) == (PlayInfo {
                notes: final(self).notes,
                judge_fields: final(self).judge_fields,
                ..*old(self)
            }),
    {
        self.mark_note_handled(bki, i);
        let ghost mid = *self;
        let ghost slots_before = self.judge_fields@;
        let track = JudgeTrack {
            note_id: i,
            linked_click: click_id,
            start_time: time_ms,
            last_position: position,
        };
        let slot = slot_mut(&mut self.judge_fields, k);
        slot.info.judge_tracks.push(track);
        proof {
            let slot_after = self.judge_fields@[k as int];
            assert(self.judge_fields@ =~= slots_before.update(k as int, slot_after));
            lemma_slots_update(slots_before, k as int, slot_after);
            assert(track.wf());
            assert(self.slots_wf()) by {
                assert forall|k1: int, k2: int|
                    0 <= k1 < self.judge_fields@.len() && 0 <= k2 < self.notes@.len() && (
                #[trigger] self.judge_fields@[k1]).id == (#[trigger] self.notes@[k2]).field_id
                    implies slot_bucket_ok(self.judge_fields@[k1], self.notes@[k2]) by {
                    assert(slot_bucket_ok(mid.judge_fields@[k1], mid.notes@[k2]));
                    if k1 == k {
                        assert(k2 == bki) by {
                            if k2 != bki {
                                assert(mid.notes@[k2].field_id != mid.notes@[bki as int].field_id);
                            }
                        }
                        let tracks_after = self.judge_fields@[k1].info.judge_tracks@;
                        assert forall|t1: int, t2: int| 0 <= t1 < t2 < tracks_after.len()
                            implies (#[trigger] tracks_after[t1]).note_id != (
                        #[trigger] tracks_after[t2]).note_id by {
                            if t2 == tracks_after.len() - 1 {
                                assert(tracks_after[t2] == track);
                                assert(mid.notes@[bki as int].handled@[
                                    tracks_after[t1].note_id as int
                                ] == old(self).notes@[bki as int].handled@.update(i as int, true)[
                                    tracks_after[t1].note_id as int
                                ]);
                                if tracks_after[t1].note_id == i {
                                    assert(!old(self).notes@[bki as int].handled@[i as int]);
                                    assert(false);
                                }
                            }
                        }
                    }
                }
                assert forall|k1: int, k2: int, t: int|
                    0 <= k1 < self.judge_fields@.len() && 0 <= k2 < self.notes@.len()
                        && (#[trigger] self.judge_fields@[k1]).id == (
                    #[trigger] self.notes@[k2]).field_id && 0 <= t
                        < self.judge_fields@[k1].info.judge_tracks@.len()
                        && self.judge_fields@[k1].info.judge_tracks@[t].note_id
                        < self.notes@[k2].notes@.len() implies !self.id_judged(
                    self.notes@[k2].notes@[#[trigger] self.judge_fields@[k1].info.judge_tracks@[t].note_id as int].note_id,
                ) by {
                    if k1 == k && t == self.judge_fields@[k1].info.judge_tracks@.len() - 1 {
                        assert(k2 == bki) by {
                            if k2 != bki {
                                assert(mid.notes@[k2].field_id != mid.notes@[bki as int].field_id);
                            }
                        }
                        assert(self.judge_fields@[k1].info.judge_tracks@[t] == track);
                        assert(!mid.id_judged(mid.notes@[bki as int].notes@[i as int].note_id))
                            by {
                            if mid.id_judged(mid.notes@[bki as int].notes@[i as int].note_id) {
                                assert(old(self).notes@[bki as int].handled@[i as int]);
                            }
                        }
                    } else {
                        assert(!mid.id_judged(
                            mid.notes@[k2].notes@[
                                mid.judge_fields@[k1].info.judge_tracks@[t].note_id as int
                            ].note_id,
                        ));
                    }
                }
            }
        }
    }

    /// Remove one open track of slot `k`, exactly when it has produced a
    /// grade.
    fn remove_track(&mut self, k: usize, ti: usize)
        requires
            old(self).wf(),
            k < old(self).judge_fields@.len(),
            ti < old(self).judge_fields@[k as int].info.judge_tracks@.len(),
        ensures
            final(self).wf(),
            final(self).judge_fields@.len() == old(self).judge_fields@.len(),
            forall|k9: int| 0 <= k9 < old(self).judge_fields@.len() && k9 != k
                ==> final(self).judge_fields@[k9] == old(self).judge_fields@[k9],
            final(self).judge_fields@[k as int].id == old(self).judge_fields@[k as int].id,
            final(self).judge_fields@[k as int].field == old(self).judge_fields@[k as int].field,
            final(self).judge_fields@[k as int].info.current_judge == old(
                self,
            ).judge_fields@[k as int].info.current_judge,
            final(self).judge_fields@[k as int].info.judge_tracks@ == old(
                self,
            ).judge_fields@[k as int].info.judge_tracks@.remove(ti as int),
            slots_tracks(final(self).judge_fields@) == slots_tracks(old(self).judge_fields@) - 1,
            *final(self) == (PlayInfo { judge_fields: final(self).judge_fields, ..*old(self) }),
    {
        let ghost slots_before = self.judge_fields@;
        let slot = slot_mut(&mut self.judge_fields, k);
        slot.info.judge_tracks.remove(ti);
        proof {
            let slot_after = self.judge_fields@[k as int];
            assert(self.judge_fields@ =~= slots_before.update(k as int, slot_after));
            lemma_slots_update(slots_before, k as int, slot_after);
            assert(self.slots_wf()) by {
                assert forall|k1: int, k2: int|
                    0 <= k1 < self.judge_fields@.len() && 0 <= k2 < self.notes@.len() && (
                #[trigger] self.judge_fields@[k1]).id == (#[trigger] self.notes@[k2]).field_id
                    implies slot_bucket_ok(self.judge_fields@[k1], self.notes@[k2]) by {
                    assert(slot_bucket_ok(old(self).judge_fields@[k1], old(self).notes@[k2]));
                    if k1 == k {
                        let pre_tracks = old(self).judge_fields@[k as int].info.judge_tracks@;
                        let post_tracks = self.judge_fields@[k as int].info.judge_tracks@;
                        assert forall|t: int| 0 <= t < post_tracks.len() implies {
                            &&& (#[trigger] post_tracks[t]).wf()
                            &&& post_tracks[t].note_id < self.notes@[k2].notes@.len()
                            &&& self.notes@[k2].handled@[post_tracks[t].note_id as int]
                        } by {
                            let src: int = if t < ti {
                                t
                            } else {
                                t + 1
                            };
                            assert(post_tracks[t] == pre_tracks[src]);
                        }
                        assert forall|t1: int, t2: int| 0 <= t1 < t2 < post_tracks.len()
                            implies (#[trigger] post_tracks[t1]).note_id != (
                        #[trigger] post_tracks[t2]).note_id by {
                            let s1: int = if t1 < ti {
                                t1
                            } else {
                                t1 + 1
                            };
                            let s2: int = if t2 < ti {
                                t2
                            } else {
                                t2 + 1
                            };
                            assert(post_tracks[t1] == pre_tracks[s1]);
                            assert(post_tracks[t2] == pre_tracks[s2]);
                        }
                    }
                }
                assert forall|k1: int, k2: int, t: int|
                    0 <= k1 < self.judge_fields@.len() && 0 <= k2 < self.notes@.len()
                        && (#[trigger] self.judge_fields@[k1]).id == (
                    #[trigger] self.notes@[k2]).field_id && 0 <= t
                        < self.judge_fields@[k1].info.judge_tracks@.len()
                        && self.judge_fields@[k1].info.judge_tracks@[t].note_id
                        < self.notes@[k2].notes@.len() implies !self.id_judged(
                    self.notes@[k2].notes@[#[trigger] self.judge_fields@[k1].info.judge_tracks@[t].note_id as int].note_id,
                ) by {
                    if k1 == k {
                        let pre_tracks = old(self).judge_fields@[k as int].info.judge_tracks@;
                        let src: int = if t < ti {
                            t
                        } else {
                            t + 1
                        };
                        assert(self.judge_fields@[k1].info.judge_tracks@[t] == pre_tracks[src]);
                        assert(!old(self).id_judged(
                            old(self).notes@[k2].notes@[pre_tracks[src].note_id as int].note_id,
                        ));
                    } else {
                        assert(!old(self).id_judged(
                            old(self).notes@[k2].notes@[
                                old(self).judge_fields@[k1].info.judge_tracks@[t].note_id as int
                            ].note_id,
                        ));
                    }
                }
            }
        }
    }

    /// Advance slot `k`'s cursor past the handled prefix of its bucket.
    fn advance_cursor(&mut self, k: usize, bki: usize)
        requires
            old(self).wf(),
            k < old(self).judge_fields@.len(),
            bki < old(self).notes@.len(),
            old(self).judge_fields@[k as int].id == old(self).notes@[bki as int].field_id,
        ensures
            final(self).wf(),
            final(self).judge_fields@.len() == old(self).judge_fields@.len(),
            forall|k9: int| 0 <= k9 < old(self).judge_fields@.len() && k9 != k
                ==> final(self).judge_fields@[k9] == old(self).judge_fields@[k9],
            final(self).judge_fields@[k as int].id == old(self).judge_fields@[k as int].id,
            final(self).judge_fields@[k as int].field == old(self).judge_fields@[k as int].field,
            final(self).judge_fields@[k as int].info.judge_tracks@ == old(
                self,
            ).judge_fields@[k as int].info.judge_tracks@,
            slots_tracks(final(self).judge_fields@) == slots_tracks(old(self).judge_fields@),
            *final(self) == (PlayInfo { judge_fields: final(self).judge_fields, ..*old(self) }),
    {
        let len = self.notes[bki].notes.len();
        let mut cj = self.judge_fields[k].info.current_judge;
        proof {
            assert(slot_bucket_ok(self.judge_fields@[k as int], self.notes@[bki as int]));
        }
        while cj < len && self.notes[bki].handled[cj]
            invariant
                cj <= len,
                len == self.notes@[bki as int].notes@.len(),
                bki < self.notes@.len(),
                self.notes@[bki as int].handled@.len() == len,
                forall|j: int| 0 <= j < cj ==> self.notes@[bki as int].handled@[j],
                *self == *old(self),
            decreases len - cj,
        {
            cj += 1;
        }
        let ghost slots_before = self.judge_fields@;
        let slot = slot_mut(&mut self.judge_fields, k);
        slot.info.current_judge = cj;
        proof {
            let slot_after = self.judge_fields@[k as int];
            assert(self.judge_fields@ =~= slots_before.update(k as int, slot_after));
            lemma_slots_update(slots_before, k as int, slot_after);
            assert(self.slots_wf()) by {
                assert forall|k1: int, k2: int|
                    0 <= k1 < self.judge_fields@.len() && 0 <= k2 < self.notes@.len() && (
                #[trigger] self.judge_fields@[k1]).id == (#[trigger] self.notes@[k2]).field_id
                    implies slot_bucket_ok(self.judge_fields@[k1], self.notes@[k2]) by {
                    assert(slot_bucket_ok(old(self).judge_fields@[k1], old(self).notes@[k2]));
                    if k1 == k {
                        assert(k2 == bki) by {
                            if k2 != bki {
                                assert(old(self).notes@[k2].field_id != old(self).notes@[
                                    bki as int
                                ].field_id);
                            }
                        }
                    }
                }
            }
        }
    }

    /// Consume one set of pointer events at judgable time `time_ms`
    /// (negative while the lead-in countdown still runs: then nothing
    /// happens).
    ///
    /// In normal mode, each judge field first resolves its open gesture
    /// tracks against the pointers sharing their id, then scans its
    /// not-yet-handled notes in time order from the first unhandled
    /// index: notes more than [`crate::judge::FADE_WINDOW_MS`] overdue
    /// are missed, notes not yet within that window stop the scan, and a
    /// pointer inside the field's transformed hit-area dispatches on its
    /// state and the note's judge type. In auto mode every unhandled due
    /// note is graded a full-credit Immaculate and pointer input is
    /// never inspected. Replay mode has no defined behaviour and is
    /// refused. Every produced grade enters the note's id into the
    /// judged record — never twice —, optionally spawns the note's click
    /// effect, and feeds the scoring accumulator.
    pub fn judge(&mut self, event: &JudgeEvent, time_ms: i64, show_click_effect: bool) -> (r:
        Result<(), crate::error::PlayError>)
        requires
            old(self).wf(),
            -EFFECT_TIME_MAX_MS <= time_ms <= EFFECT_TIME_MAX_MS,
        ensures
            r is Ok <==> (time_ms < 0 || !(old(self).play_mode is Replay)),
            r is Err ==> *final(self) == *old(self),
            time_ms < 0 ==> *final(self) == *old(self),
            judge_rel(*old(self), *final(self)),
            !show_click_effect ==> final(self).render_queue@ == old(self).render_queue@,
            (old(self).play_mode is Auto && time_ms >= 0) ==> auto_judge_rel(
                *old(self),
                *final(self),
                time_ms as int,
            ),
            (!(old(self).play_mode is Replay) && time_ms >= 0) ==> overdue_resolved(
                *old(self),
                *final(self),
                time_ms as int,
            ),
            (old(self).play_mode is Normal && time_ms >= 0) ==> normal_judge_rel(
                *old(self),
                *final(self),
                *event,
                time_ms as int,
            ),
    {
        if time_ms < 0 {
            return Ok(());
        }
        let is_auto = match &self.play_mode {
            crate::session::PlayMode::Normal => false,
            crate::session::PlayMode::Auto => true,
            crate::session::PlayMode::Replay(_) => {
                return Err(crate::error::PlayError::UnsupportedMode);
            },
        };
        proof {
            assert(self.judge_vec@.skip(old(self).judge_vec@.len() as int) =~= Seq::<
                Judge,
            >::empty());
            assert(crate::score::apply_grades(old(self).scoring(), Seq::<Judge>::empty()) == old(
                self,
            ).scoring());
            assert(judge_rel(*old(self), *self));
        }
        let ghost clicks0 = event.clicks@;
        let nfields = self.judge_fields.len();
        let mut k: usize = 0;
        if is_auto {
            while k < nfields
                invariant
                    old(self).wf(),
                    judge_rel(*old(self), *self),
                    old(self).play_mode is Auto,
                    0 <= time_ms <= EFFECT_TIME_MAX_MS,
                    nfields == self.judge_fields@.len(),
                    k <= nfields,
                    !show_click_effect ==> self.render_queue@ == old(self).render_queue@,
                    forall|j: int|
                        old(self).judge_vec@.len() <= j < self.judge_vec@.len()
                            ==> self.judge_vec@[j] == Judge::Immaculate(crate::chart::PPM as u64),
                    forall|kb: int, i: int|
                        #![trigger self.notes@[kb].handled@[i]]
                        0 <= kb < old(self).notes@.len() && 0 <= i < old(
                            self,
                        ).notes@[kb].handled@.len() ==> self.notes@[kb].handled@[i] == (old(
                            self,
                        ).notes@[kb].handled@[i] || ((exists|kk: int|
                            0 <= kk < k && (#[trigger] old(self).judge_fields@[kk]).id == old(
                                self,
                            ).notes@[kb].field_id) && old(self).notes@[kb].notes@[i].judge_time
                            < time_ms)),
                decreases nfields - k,
            {
                let fid = self.judge_fields[k].id;
                match crate::session::find_bucket(&self.notes, fid) {
                    None => {
                        proof {
                            assert forall|kb: int, i: int|
                                #![trigger self.notes@[kb].handled@[i]]
                                0 <= kb < old(self).notes@.len() && 0 <= i < old(
                                    self,
                                ).notes@[kb].handled@.len() implies self.notes@[kb].handled@[i]
                                == (old(self).notes@[kb].handled@[i] || ((exists|kk: int|
                                0 <= kk < k + 1 && (#[trigger] old(self).judge_fields@[kk]).id
                                    == old(self).notes@[kb].field_id) && old(
                                self,
                            ).notes@[kb].notes@[i].judge_time < time_ms)) by {
                                if exists|kk: int|
                                    0 <= kk < k + 1 && (#[trigger] old(
                                        self,
                                    ).judge_fields@[kk]).id == old(self).notes@[kb].field_id {
                                    let kk = choose|kk: int|
                                        0 <= kk < k + 1 && (#[trigger] old(
                                            self,
                                        ).judge_fields@[kk]).id == old(self).notes@[kb].field_id;
                                    if kk == k {
                                        assert(self.notes@[kb].field_id == old(
                                            self,
                                        ).notes@[kb].field_id);
                                        assert(false);
                                    }
                                }
                            }
                        }
                    },
                    Some(bki) => {
                        let blen = self.notes[bki].notes.len();
                        proof {
                            assert(slot_bucket_ok(
                                self.judge_fields@[k as int],
                                self.notes@[bki as int],
                            ));
                            assert forall|i9: int| 0 <= i9 < blen implies self.notes@[
                                bki as int
                            ].handled@[i9] == old(self).notes@[bki as int].handled@[i9] by {
                                if exists|kk: int|
                                    0 <= kk < k && (#[trigger] old(self).judge_fields@[kk]).id
                                        == old(self).notes@[bki as int].field_id {
                                    let kk = choose|kk: int|
                                        0 <= kk < k && (#[trigger] old(
                                            self,
                                        ).judge_fields@[kk]).id == old(self).notes@[
                                            bki as int
                                        ].field_id;
                                    assert(old(self).judge_fields@[kk].id == old(
                                        self,
                                    ).judge_fields@[k as int].id);
                                    assert(false);
                                }
                            }
                        }
                        let mut i: usize = self.judge_fields[k].info.current_judge;
                        let mut done = false;
                        while i < blen && !done
                            invariant
                                old(self).wf(),
                                judge_rel(*old(self), *self),
                                old(self).play_mode is Auto,
                                0 <= time_ms <= EFFECT_TIME_MAX_MS,
                                nfields == self.judge_fields@.len(),
                                k < nfields,
                                bki < self.notes@.len(),
                                self.judge_fields@[k as int].id == self.notes@[bki as int].field_id,
                                blen == self.notes@[bki as int].notes@.len(),
                                i <= blen,
                                !show_click_effect ==> self.render_queue@ == old(
                                    self,
                                ).render_queue@,
                                forall|j: int|
                                    old(self).judge_vec@.len() <= j < self.judge_vec@.len()
                                        ==> self.judge_vec@[j] == Judge::Immaculate(
                                        crate::chart::PPM as u64,
                                    ),
                                forall|kb: int, i9: int|
                                    #![trigger self.notes@[kb].handled@[i9]]
                                    0 <= kb < old(self).notes@.len() && kb != bki && 0 <= i9 < old(
                                        self,
                                    ).notes@[kb].handled@.len() ==> self.notes@[kb].handled@[i9]
                                        == (old(self).notes@[kb].handled@[i9] || ((exists|kk: int|
                                        0 <= kk < k && (#[trigger] old(
                                            self,
                                        ).judge_fields@[kk]).id == old(self).notes@[kb].field_id)
                                        && old(self).notes@[kb].notes@[i9].judge_time < time_ms)),
                                forall|i9: int|
                                    0 <= i9 < i ==> self.notes@[bki as int].handled@[i9] == (old(
                                        self,
                                    ).notes@[bki as int].handled@[i9] || old(
                                        self,
                                    ).notes@[bki as int].notes@[i9].judge_time < time_ms),
                                forall|i9: int|
                                    i <= i9 < blen ==> self.notes@[bki as int].handled@[i9] == old(
                                        self,
                                    ).notes@[bki as int].handled@[i9],
                                done ==> i < blen && !self.notes@[bki as int].handled@[i as int]
                                    && self.notes@[bki as int].notes@[i as int].judge_time
                                    >= time_ms,
                            decreases blen - i, (if done { 0int } else { 1int }),
                        {
                            if self.notes[bki].handled[i] {
                                i += 1;
                            } else {
                                let jt = self.notes[bki].notes[i].judge_time;
                                if jt < time_ms {
                                    let ghost before_mark = *self;
                                    self.mark_note_handled(bki, i);
                                    proof {
                                        assert(!before_mark.id_judged(
                                            before_mark.notes@[bki as int].notes@[i as int].note_id,
                                        )) by {
                                            if before_mark.id_judged(
                                                before_mark.notes@[bki as int].notes@[
                                                    i as int
                                                ].note_id,
                                            ) {
                                                assert(before_mark.notes@[bki as int].handled@[
                                                    i as int
                                                ]);
                                            }
                                        }
                                        assert(self.untracked(bki as int, i as int)) by {
                                            assert forall|k2: int, t: int|
                                                0 <= k2 < self.judge_fields@.len() && (
                                            #[trigger] self.judge_fields@[k2]).id == self.notes@[
                                                bki as int
                                            ].field_id && 0 <= t < self.judge_fields@[
                                                k2
                                            ].info.judge_tracks@.len() implies (
                                            #[trigger] self.judge_fields@[
                                                k2
                                            ].info.judge_tracks@[t]).note_id != i as int by {
                                                assert(slot_bucket_ok(
                                                    before_mark.judge_fields@[k2],
                                                    before_mark.notes@[bki as int],
                                                ));
                                                if self.judge_fields@[k2].info.judge_tracks@[
                                                    t
                                                ].note_id == i as int {
                                                    assert(before_mark.notes@[bki as int].handled@[
                                                        i as int
                                                    ]);
                                                }
                                            }
                                        }
                                        crate::session::lemma_slots_tracks_nonneg(
                                            self.judge_fields@,
                                        );
                                        crate::session::lemma_buckets_len_nonneg(self.notes@);
                                    }
                                    let ghost mid = *self;
                                    self.record_grade(
                                        bki,
                                        i,
                                        Judge::Immaculate(crate::chart::PPM as u64),
                                        time_ms,
                                        show_click_effect,
                                    );
                                    proof {
                                        let prelen = old(self).judge_vec@.len() as int;
                                        assert(self.judge_vec@.skip(prelen) =~= mid.judge_vec@.skip(
                                            prelen,
                                        ).push(Judge::Immaculate(crate::chart::PPM as u64)));
                                        crate::score::lemma_apply_grades_snoc(
                                            old(self).scoring(),
                                            mid.judge_vec@.skip(prelen),
                                            Judge::Immaculate(crate::chart::PPM as u64),
                                        );
                                        lemma_prefix_push(
                                            old(self).judged_note_id@,
                                            mid.judged_note_id@,
                                            self.judged_note_id@[self.judged_note_id@.len() - 1],
                                        );
                                        lemma_prefix_push(
                                            old(self).judge_vec@,
                                            mid.judge_vec@,
                                            Judge::Immaculate(crate::chart::PPM as u64),
                                        );
                                        assert(mid.render_queue@.is_prefix_of(
                                            self.render_queue@,
                                        )) by {
                                            assert(self.render_queue@.subrange(
                                                0,
                                                mid.render_queue@.len() as int,
                                            ) =~= self.render_queue@.take(
                                                mid.render_queue@.len() as int,
                                            ));
                                        }
                                        lemma_prefix_trans(
                                            old(self).render_queue@,
                                            mid.render_queue@,
                                            self.render_queue@,
                                        );
                                    }
                                    i += 1;
                                } else {
                                    done = true;
                                }
                            }
                        }
                        proof {
                            assert forall|i9: int| 0 <= i9 < blen implies self.notes@[
                                bki as int
                            ].handled@[i9] == (old(self).notes@[bki as int].handled@[i9] || old(
                                self,
                            ).notes@[bki as int].notes@[i9].judge_time < time_ms) by {
                                if i9 >= i && !old(self).notes@[bki as int].handled@[i9] {
                                    if done {
                                        assert(old(self).notes@[bki as int].notes@[
                                            i as int
                                        ].judge_time >= time_ms);
                                        assert(self.notes@[bki as int].notes@[i9].judge_time
                                            >= self.notes@[bki as int].notes@[i as int].judge_time);
                                    }
                                }
                            }
                        }
                        self.advance_cursor(k, bki);
                        proof {
                            assert forall|kb: int, i9: int|
                                #![trigger self.notes@[kb].handled@[i9]]
                                0 <= kb < old(self).notes@.len() && 0 <= i9 < old(
                                    self,
                                ).notes@[kb].handled@.len() implies self.notes@[kb].handled@[i9]
                                == (old(self).notes@[kb].handled@[i9] || ((exists|kk: int|
                                0 <= kk < k + 1 && (#[trigger] old(self).judge_fields@[kk]).id
                                    == old(self).notes@[kb].field_id) && old(
                                self,
                            ).notes@[kb].notes@[i9].judge_time < time_ms)) by {
                                if kb == bki {
                                    assert(old(self).judge_fields@[k as int].id == old(
                                        self,
                                    ).notes@[kb].field_id);
                                } else {
                                    if exists|kk: int|
                                        0 <= kk < k + 1 && (#[trigger] old(
                                            self,
                                        ).judge_fields@[kk]).id == old(self).notes@[kb].field_id {
                                        let kk = choose|kk: int|
                                            0 <= kk < k + 1 && (#[trigger] old(
                                                self,
                                            ).judge_fields@[kk]).id == old(
                                                self,
                                            ).notes@[kb].field_id;
                                        if kk == k {
                                            assert(old(self).notes@[kb].field_id == old(
                                                self,
                                            ).notes@[bki as int].field_id);
                                            assert(false);
                                        }
                                    }
                                }
                            }
                        }
                    },
                }
                k += 1;
            }
            proof {
                assert forall|kb: int, i: int|
                    #![trigger self.notes@[kb].handled@[i]]
                    0 <= kb < old(self).notes@.len() && 0 <= i < old(
                        self,
                    ).notes@[kb].handled@.len() && has_slot(
                        *old(self),
                        old(self).notes@[kb].field_id,
                    ) && old(self).notes@[kb].notes@[i].judge_time
                        + crate::judge::FADE_WINDOW_MS < time_ms
                    implies self.notes@[kb].handled@[i] by {
                    assert(old(self).notes@[kb].notes@[i].judge_time < time_ms);
                }
            }
        } else {
            while k < nfields
                invariant
                    old(self).wf(),
                    judge_rel(*old(self), *self),
                    0 <= time_ms <= EFFECT_TIME_MAX_MS,
                    nfields == self.judge_fields@.len(),
                    k <= nfields,
                    clicks0 == event.clicks@,
                    !show_click_effect ==> self.render_queue@ == old(self).render_queue@,
                    forall|k9: int| k <= k9 < nfields
                        ==> self.judge_fields@[k9] == old(self).judge_fields@[k9],
                    forall|k1: int, b1: int|
                        0 <= k1 < k && 0 <= b1 < old(self).notes@.len() && (#[trigger] old(
                            self,
                        ).judge_fields@[k1]).id == (#[trigger] old(self).notes@[b1]).field_id
                            ==> normal_field_rel(*old(self), *self, k1, b1, clicks0,
                            time_ms as int),
                    forall|kb: int|
                        0 <= kb < old(self).notes@.len() && !(exists|kk: int|
                            0 <= kk < k && (#[trigger] old(self).judge_fields@[kk]).id == old(
                                self,
                            ).notes@[kb].field_id) ==> #[trigger] self.notes@[kb] == old(
                            self,
                        ).notes@[kb],
                    forall|kb: int, i: int|
                        #![trigger self.notes@[kb].handled@[i]]
                        0 <= kb < old(self).notes@.len() && 0 <= i < old(
                            self,
                        ).notes@[kb].handled@.len() && (exists|kk: int|
                            0 <= kk < k && (#[trigger] old(self).judge_fields@[kk]).id == old(
                                self,
                            ).notes@[kb].field_id) && old(
                            self,
                        ).notes@[kb].notes@[i].judge_time + crate::judge::FADE_WINDOW_MS
                            < time_ms ==> self.notes@[kb].handled@[i],
                decreases nfields - k,
            {
                let fid = self.judge_fields[k].id;
                let ghost step_pre = *self;
                match crate::session::find_bucket(&self.notes, fid) {
                    None => {
                        proof {
                            assert forall|kb: int, i: int|
                                #![trigger self.notes@[kb].handled@[i]]
                                0 <= kb < old(self).notes@.len() && 0 <= i < old(
                                    self,
                                ).notes@[kb].handled@.len() && !(exists|kk: int|
                                    0 <= kk < k + 1 && (#[trigger] old(
                                        self,
                                    ).judge_fields@[kk]).id == old(self).notes@[kb].field_id)
                                implies self.notes@[kb].handled@[i] == old(self).notes@[
                                kb].handled@[i] by {
                                if exists|kk: int|
                                    0 <= kk < k && (#[trigger] old(self).judge_fields@[kk]).id
                                        == old(self).notes@[kb].field_id {
                                    let kk = choose|kk: int|
                                        0 <= kk < k && (#[trigger] old(
                                            self,
                                        ).judge_fields@[kk]).id == old(self).notes@[kb].field_id;
                                    assert(0 <= kk < k + 1);
                                    assert(false);
                                }
                            }
                            assert forall|kb: int, i: int|
                                #![trigger self.notes@[kb].handled@[i]]
                                0 <= kb < old(self).notes@.len() && 0 <= i < old(
                                    self,
                                ).notes@[kb].handled@.len() && (exists|kk: int|
                                    0 <= kk < k + 1 && (#[trigger] old(
                                        self,
                                    ).judge_fields@[kk]).id == old(self).notes@[kb].field_id)
                                    && old(self).notes@[kb].notes@[i].judge_time
                                    + crate::judge::FADE_WINDOW_MS < time_ms
                                implies self.notes@[kb].handled@[i] by {
                                let kk = choose|kk: int|
                                    0 <= kk < k + 1 && (#[trigger] old(
                                        self,
                                    ).judge_fields@[kk]).id == old(self).notes@[kb].field_id;
                                if kk == k {
                                    assert(self.notes@[kb].field_id == old(
                                        self,
                                    ).notes@[kb].field_id);
                                    assert(self.judge_fields@[k as int].id == old(
                                        self,
                                    ).judge_fields@[k as int].id);
                                    assert(self.notes@[kb].field_id != fid);
                                    assert(false);
                                }
                            }
                        }
                    },
                    Some(bki) => {
                        let ghost mid = *self;
                        self.judge_field_normal(k, bki, event, time_ms, show_click_effect);
                        proof {
                            lemma_judge_rel_trans(*old(self), mid, *self);
                            assert forall|kb: int|
                                0 <= kb < old(self).notes@.len() && !(exists|kk: int|
                                    0 <= kk < k + 1 && (#[trigger] old(
                                        self,
                                    ).judge_fields@[kk]).id == old(self).notes@[kb].field_id)
                                implies #[trigger] self.notes@[kb] == old(self).notes@[kb] by {
                                assert(kb != bki) by {
                                    if kb == bki {
                                        assert(old(self).judge_fields@[k as int].id == old(
                                            self,
                                        ).notes@[kb].field_id);
                                    }
                                }
                                assert(self.notes@[kb] == mid.notes@[kb]);
                            }
                            assert forall|k1: int, b1: int|
                                0 <= k1 < k + 1 && 0 <= b1 < old(self).notes@.len() && (
                                #[trigger] old(self).judge_fields@[k1]).id == (#[trigger] old(
                                    self,
                                ).notes@[b1]).field_id implies normal_field_rel(
                                *old(self),
                                *self,
                                k1,
                                b1,
                                clicks0,
                                time_ms as int,
                            ) by {
                                if k1 == k {
                                    assert(b1 == bki as int) by {
                                        if b1 != bki {
                                            assert(old(self).notes@[b1].field_id != old(
                                                self,
                                            ).notes@[bki as int].field_id);
                                        }
                                    }
                                    assert(mid.judge_fields@[k as int] == old(
                                        self,
                                    ).judge_fields@[k as int]);
                                    assert(mid.notes@[bki as int] == old(self).notes@[
                                        bki as int
                                    ]) by {
                                        if exists|kk: int|
                                            0 <= kk < k && (#[trigger] old(
                                                self,
                                            ).judge_fields@[kk]).id == old(self).notes@[
                                                bki as int
                                            ].field_id {
                                            let kk = choose|kk: int|
                                                0 <= kk < k && (#[trigger] old(
                                                    self,
                                                ).judge_fields@[kk]).id == old(self).notes@[
                                                    bki as int
                                                ].field_id;
                                            assert(old(self).judge_fields@[kk].id == old(
                                                self,
                                            ).judge_fields@[k as int].id);
                                            assert(false);
                                        }
                                    }
                                    lemma_field_rel_shift_pre(
                                        *old(self),
                                        mid,
                                        *self,
                                        k1,
                                        b1,
                                        clicks0,
                                        time_ms as int,
                                    );
                                } else {
                                    assert(normal_field_rel(
                                        *old(self),
                                        mid,
                                        k1,
                                        b1,
                                        clicks0,
                                        time_ms as int,
                                    ));
                                    assert(b1 != bki as int) by {
                                        if b1 == bki {
                                            assert(old(self).judge_fields@[k1].id == old(
                                                self,
                                            ).notes@[bki as int].field_id);
                                            assert(old(self).judge_fields@[k as int].id == old(
                                                self,
                                            ).notes@[bki as int].field_id);
                                            assert(old(self).judge_fields@[k1].id == old(
                                                self,
                                            ).judge_fields@[k as int].id);
                                            assert(false);
                                        }
                                    }
                                    assert(self.judge_fields@[k1] == mid.judge_fields@[k1]);
                                    assert(self.notes@[b1] == mid.notes@[b1]);
                                    lemma_field_rel_frame(
                                        *old(self),
                                        mid,
                                        *self,
                                        k1,
                                        b1,
                                        clicks0,
                                        time_ms as int,
                                    );
                                }
                            }
                            assert forall|kb: int, i: int|
                                #![trigger self.notes@[kb].handled@[i]]
                                0 <= kb < old(self).notes@.len() && 0 <= i < old(
                                    self,
                                ).notes@[kb].handled@.len() && (exists|kk: int|
                                    0 <= kk < k + 1 && (#[trigger] old(
                                        self,
                                    ).judge_fields@[kk]).id == old(self).notes@[kb].field_id)
                                    && old(self).notes@[kb].notes@[i].judge_time
                                    + crate::judge::FADE_WINDOW_MS < time_ms
                                implies self.notes@[kb].handled@[i] by {
                                let kk = choose|kk: int|
                                    0 <= kk < k + 1 && (#[trigger] old(
                                        self,
                                    ).judge_fields@[kk]).id == old(self).notes@[kb].field_id;
                                if kk < k {
                                    assert(mid.notes@[kb].handled@[i]);
                                } else {
                                    assert(kb == bki) by {
                                        if kb != bki {
                                            assert(old(self).notes@[kb].field_id != old(
                                                self,
                                            ).notes@[bki as int].field_id);
                                            assert(mid.notes@[bki as int].field_id == old(
                                                self,
                                            ).notes@[bki as int].field_id);
                                        }
                                    }
                                    assert(mid.notes@[bki as int].handled@.len() == old(
                                        self,
                                    ).notes@[bki as int].handled@.len());
                                    assert(mid.notes@[bki as int].notes@[i].judge_time == old(
                                        self,
                                    ).notes@[bki as int].notes@[i].judge_time);
                                }
                            }
                        }
                    },
                }
                k += 1;
            }
        }
        Ok(())
    }

    /// Judge one field in normal mode: resolve its open gesture tracks
    /// against the pointers sharing their id, then scan its
    /// not-yet-handled notes in time order.
    #[verifier::rlimit(100)]
    fn judge_field_normal(&mut self, k: usize, bki: usize, event: &JudgeEvent, time_ms: i64,
        show_click_effect: bool)
        requires
            old(self).wf(),
            k < old(self).judge_fields@.len(),
            bki < old(self).notes@.len(),
            old(self).judge_fields@[k as int].id == old(self).notes@[bki as int].field_id,
            0 <= time_ms <= EFFECT_TIME_MAX_MS,
        ensures
            judge_rel(*old(self), *final(self)),
            !show_click_effect ==> final(self).render_queue@ == old(self).render_queue@,
            forall|kb: int| 0 <= kb < old(self).notes@.len() && kb != bki
                ==> final(self).notes@[kb] == old(self).notes@[kb],
            forall|i: int|
                0 <= i < old(self).notes@[bki as int].handled@.len() && old(self).notes@[
                    bki as int
                ].notes@[i].judge_time + crate::judge::FADE_WINDOW_MS < time_ms
                    ==> final(self).notes@[bki as int].handled@[i],
            forall|k9: int| 0 <= k9 < old(self).judge_fields@.len() && k9 != k
                ==> final(self).judge_fields@[k9] == old(self).judge_fields@[k9],
            normal_field_rel(*old(self), *final(self), k as int, bki as int, event.clicks@,
                time_ms as int),
    {
        proof {
            assert(self.judge_vec@.skip(old(self).judge_vec@.len() as int) =~= Seq::<
                Judge,
            >::empty());
            assert(crate::score::apply_grades(old(self).scoring(), Seq::<Judge>::empty()) == old(
                self,
            ).scoring());
        }
        let ghost tracks0 = old(self).judge_fields@[k as int].info.judge_tracks@;
        let ghost bucket0 = old(self).notes@[bki as int];
        let ghost clicks0 = event.clicks@;
        let ghost mut done: int = 0;
        proof {
            assert(self.judge_fields@[k as int].info.judge_tracks@.skip(0) =~= tracks0.skip(0));
        }
        let mut ti: usize = 0;
        while ti < self.judge_fields[k].info.judge_tracks.len()
            invariant
                old(self).wf(),
                judge_rel(*old(self), *self),
                0 <= time_ms <= EFFECT_TIME_MAX_MS,
                k < self.judge_fields@.len(),
                bki < self.notes@.len(),
                self.judge_fields@[k as int].id == self.notes@[bki as int].field_id,
                self.notes@ == old(self).notes@,
                tracks0 == old(self).judge_fields@[k as int].info.judge_tracks@,
                bucket0 == old(self).notes@[bki as int],
                clicks0 == event.clicks@,
                0 <= done <= tracks0.len(),
                ti <= self.judge_fields@[k as int].info.judge_tracks@.len(),
                self.judge_fields@[k as int].info.judge_tracks@.skip(ti as int) == tracks0.skip(
                    done,
                ),
                ti == self.judge_fields@[k as int].info.judge_tracks@.len() - (tracks0.len()
                    - done),
                forall|k9: int| 0 <= k9 < old(self).judge_fields@.len() && k9 != k
                    ==> self.judge_fields@[k9] == old(self).judge_fields@[k9],
                phase_a_done(*old(self), *self, k as int, bki as int, clicks0, time_ms as int,
                    done),
                !show_click_effect ==> self.render_queue@ == old(self).render_queue@,
            decreases self.judge_fields@[k as int].info.judge_tracks@.len() - ti,
        {
            let ghost loop_head = *self;
            let track = self.judge_fields[k].info.judge_tracks[ti];
            proof {
                assert(slot_bucket_ok(self.judge_fields@[k as int], self.notes@[bki as int]));
                assert(self.judge_fields@[k as int].info.judge_tracks@.skip(ti as int)[0]
                    == track);
                assert(track == tracks0[done]);
            }
            let ni = track.note_id;
            let mut resolution: Option<Judge> = None;
            let mut c: usize = 0;
            proof {
                assert(clicks0.skip(0) =~= clicks0);
            }
            while c < event.clicks.len() && resolution.is_none()
                invariant
                    judge_rel(*old(self), *self),
                    0 <= time_ms <= EFFECT_TIME_MAX_MS,
                    k < self.judge_fields@.len(),
                    bki < self.notes@.len(),
                    self.judge_fields@[k as int].id == self.notes@[bki as int].field_id,
                    self.notes@ == old(self).notes@,
                    bucket0 == old(self).notes@[bki as int],
                    clicks0 == event.clicks@,
                    ti < self.judge_fields@[k as int].info.judge_tracks@.len(),
                    track == self.judge_fields@[k as int].info.judge_tracks@[ti as int],
                    ni == track.note_id,
                    ni < self.notes@[bki as int].notes@.len(),
                    !show_click_effect ==> self.render_queue@ == old(self).render_queue@,
                    c <= event.clicks@.len(),
                    resolution matches Some(j) ==> j.wf(),
                    spec_track_outcome(
                        bucket0.notes@[ni as int].judge_type,
                        bucket0.notes@[ni as int].judge_time as int,
                        track,
                        clicks0,
                        time_ms as int,
                    ) == (match resolution {
                        Option::Some(g) => Option::Some(g),
                        Option::None => spec_track_outcome(
                            bucket0.notes@[ni as int].judge_type,
                            bucket0.notes@[ni as int].judge_time as int,
                            track,
                            clicks0.skip(c as int),
                            time_ms as int,
                        ),
                    }),
                decreases event.clicks@.len() - c,
            {
                let click = event.clicks[c];
                proof {
                    assert(click == clicks0[c as int]);
                    assert(clicks0.skip(c as int)[0] == clicks0[c as int]);
                    assert(clicks0.skip(c as int).drop_first() =~= clicks0.skip(c as int + 1));
                    assert(self.notes@[bki as int].notes@[ni as int] == bucket0.notes@[
                        ni as int
                    ]);
                }
                resolution = crate::judge::resolve_track(
                    &self.notes[bki].notes[ni].judge_type,
                    self.notes[bki].notes[ni].judge_time,
                    &track,
                    &click,
                    time_ms,
                );
                c += 1;
            }
            proof {
                if resolution is None {
                    assert(clicks0.skip(c as int) =~= Seq::<Click>::empty());
                    assert(spec_track_outcome(
                        bucket0.notes@[ni as int].judge_type,
                        bucket0.notes@[ni as int].judge_time as int,
                        track,
                        clicks0,
                        time_ms as int,
                    ) == Option::<Judge>::None);
                }
            }
            match resolution {
                Some(judge) => {
                    let ghost before_remove = *self;
                    self.remove_track(k, ti);
                    proof {
                        self.lemma_removed_untracked(
                            before_remove,
                            k as int,
                            bki as int,
                            ti as int,
                            ni as int,
                        );
                        crate::session::lemma_slots_tracks_nonneg(self.judge_fields@);
                        crate::session::lemma_buckets_len_nonneg(self.notes@);
                    }
                    let ghost mid = *self;
                    self.record_grade(bki, ni, judge, time_ms, show_click_effect);
                    proof {
                        let prelen = old(self).judge_vec@.len() as int;
                        assert(self.judge_vec@.skip(prelen) =~= mid.judge_vec@.skip(prelen).push(
                            judge,
                        ));
                        crate::score::lemma_apply_grades_snoc(
                            old(self).scoring(),
                            mid.judge_vec@.skip(prelen),
                            judge,
                        );
                        lemma_prefix_push(
                            old(self).judged_note_id@,
                            mid.judged_note_id@,
                            self.judged_note_id@[self.judged_note_id@.len() - 1],
                        );
                        lemma_prefix_push(old(self).judge_vec@, mid.judge_vec@, judge);
                        assert(mid.render_queue@.is_prefix_of(self.render_queue@)) by {
                            assert(self.render_queue@.subrange(0, mid.render_queue@.len() as int)
                                =~= self.render_queue@.take(mid.render_queue@.len() as int));
                        }
                        lemma_prefix_trans(
                            old(self).render_queue@,
                            mid.render_queue@,
                            self.render_queue@,
                        );
                    }
                    proof {
                        assert(track == tracks0[done]);
                        self.lemma_resolved_bookkeeping(
                            *old(self),
                            loop_head,
                            mid,
                            k as int,
                            bki as int,
                            ti as int,
                            done,
                            ni as int,
                            judge,
                            clicks0,
                            time_ms as int,
                        );
                        done = done + 1;
                    }
                },
                None => {
                    proof {
                        assert(spec_track_outcome(
                            bucket0.notes@[ni as int].judge_type,
                            bucket0.notes@[ni as int].judge_time as int,
                            tracks0[done],
                            clicks0,
                            time_ms as int,
                        ) == Option::<Judge>::None);
                        assert(self.judge_fields@[k as int].info.judge_tracks@[ti as int]
                            == tracks0[done]);
                        assert(self.judge_fields@[k as int].info.judge_tracks@.skip(
                            ti as int + 1,
                        ) =~= tracks0.skip(done + 1)) by {
                            assert(self.judge_fields@[k as int].info.judge_tracks@.skip(
                                ti as int,
                            ).drop_first() =~= self.judge_fields@[k as int].info.judge_tracks@
                                .skip(ti as int + 1));
                            assert(tracks0.skip(done).drop_first() =~= tracks0.skip(done + 1));
                        }
                        lemma_phase_a_extend_none(
                            *old(self),
                            *self,
                            k as int,
                            bki as int,
                            clicks0,
                            time_ms as int,
                            done,
                        );
                        done = done + 1;
                    }
                    ti += 1;
                },
            }
        }
        proof {
            assert(done == tracks0.len());
        }
        let blen = self.notes[bki].notes.len();
        proof {
            assert(slot_bucket_ok(self.judge_fields@[k as int], self.notes@[bki as int]));
            assert(self.judge_fields@[k as int].field.wf());
        }
        let inner_now = self.judge_fields[k].field.inner_at(time_ms);
        let ghost field0 = old(self).judge_fields@[k as int].field;
        proof {
            assert(self.judge_fields@[k as int].field == field0);
        }
        let mut i: usize = self.judge_fields[k].info.current_judge;
        proof {
            assert(notes_done(
                *old(self),
                *self,
                k as int,
                bki as int,
                clicks0,
                time_ms as int,
                i as int,
            )) by {
                assert forall|i9: int|
                    #![trigger bucket0.notes@[i9]]
                    0 <= i9 < i && i9 < bucket0.notes@.len() && !bucket0.handled@[i9]
                    implies false by {
                    assert(self.notes@[bki as int].handled@[i9]);
                }
            }
        }
        let mut done = false;
        while i < blen && !done
            invariant
                old(self).wf(),
                judge_rel(*old(self), *self),
                0 <= time_ms <= EFFECT_TIME_MAX_MS,
                k < self.judge_fields@.len(),
                bki < self.notes@.len(),
                self.judge_fields@[k as int].id == self.notes@[bki as int].field_id,
                blen == self.notes@[bki as int].notes@.len(),
                blen == bucket0.notes@.len(),
                i <= blen,
                inner_now == crate::chart::spec_field_inner_at(field0, time_ms as int),
                inner_now.wf(),
                field0 == old(self).judge_fields@[k as int].field,
                tracks0 == old(self).judge_fields@[k as int].info.judge_tracks@,
                bucket0 == old(self).notes@[bki as int],
                clicks0 == event.clicks@,
                phase_a_done(*old(self), *self, k as int, bki as int, clicks0, time_ms as int,
                    tracks0.len() as int),
                notes_done(*old(self), *self, k as int, bki as int, clicks0, time_ms as int,
                    i as int),
                forall|i9: int| i <= i9 < blen ==> self.notes@[bki as int].handled@[i9]
                    == bucket0.handled@[i9],
                forall|k9: int| 0 <= k9 < old(self).judge_fields@.len() && k9 != k
                    ==> self.judge_fields@[k9] == old(self).judge_fields@[k9],
                forall|kb: int| 0 <= kb < old(self).notes@.len() && kb != bki
                    ==> self.notes@[kb] == old(self).notes@[kb],
                forall|i9: int|
                    0 <= i9 < i && old(self).notes@[bki as int].notes@[i9].judge_time
                        + crate::judge::FADE_WINDOW_MS < time_ms
                        ==> self.notes@[bki as int].handled@[i9],
                done ==> i < blen && old(self).notes@[bki as int].notes@[i as int].judge_time
                    > time_ms + crate::judge::FADE_WINDOW_MS,
                !show_click_effect ==> self.render_queue@ == old(self).render_queue@,
            decreases blen - i, (if done { 0int } else { 1int }),
        {
            if self.notes[bki].handled[i] {
                i += 1;
            } else {
                let jt = self.notes[bki].notes[i].judge_time;
                let delta = time_ms - jt;
                if delta < -crate::judge::FADE_WINDOW_MS {
                    done = true;
                } else if delta > crate::judge::FADE_WINDOW_MS {
                    let ghost before_mark = *self;
                    self.mark_note_handled(bki, i);
                    proof {
                        self.lemma_fresh_grade_ok(before_mark, bki as int, i as int);
                    }
                    let ghost mid = *self;
                    self.record_grade(bki, i, Judge::Miss, time_ms, show_click_effect);
                    proof {
                        let prelen = old(self).judge_vec@.len() as int;
                        assert(self.judge_vec@.skip(prelen) =~= mid.judge_vec@.skip(prelen).push(
                            Judge::Miss,
                        ));
                        crate::score::lemma_apply_grades_snoc(
                            old(self).scoring(),
                            mid.judge_vec@.skip(prelen),
                            Judge::Miss,
                        );
                        lemma_prefix_push(
                            old(self).judged_note_id@,
                            mid.judged_note_id@,
                            self.judged_note_id@[self.judged_note_id@.len() - 1],
                        );
                        lemma_prefix_push(old(self).judge_vec@, mid.judge_vec@, Judge::Miss);
                        assert(mid.render_queue@.is_prefix_of(self.render_queue@)) by {
                            assert(self.render_queue@.subrange(0, mid.render_queue@.len() as int)
                                =~= self.render_queue@.take(mid.render_queue@.len() as int));
                        }
                        lemma_prefix_trans(
                            old(self).render_queue@,
                            mid.render_queue@,
                            self.render_queue@,
                        );
                    }
                    proof {
                        self.lemma_settle_step(
                            *old(self),
                            before_mark,
                            k as int,
                            bki as int,
                            clicks0,
                            time_ms as int,
                            i as int,
                        );
                        assert(mid.judged_note_id@.len() == mid.judge_vec@.len());
                        lemma_just_recorded(
                            *old(self),
                            mid,
                            *self,
                            bucket0.notes@[i as int].note_id,
                            Judge::Miss,
                        );
                        lemma_notes_done_extend(
                            *old(self),
                            *self,
                            k as int,
                            bki as int,
                            clicks0,
                            time_ms as int,
                            i as int,
                        );
                    }
                    i += 1;
                } else {
                    let ghost win_head = *self;
                    let mut c: usize = 0;
                    let mut consumed = false;
                    proof {
                        assert(clicks0.skip(0) =~= clicks0);
                    }
                    while c < event.clicks.len() && !consumed
                        invariant
                            old(self).wf(),
                            judge_rel(*old(self), *self),
                            0 <= time_ms <= EFFECT_TIME_MAX_MS,
                            k < self.judge_fields@.len(),
                            bki < self.notes@.len(),
                            self.judge_fields@[k as int].id == self.notes@[bki as int].field_id,
                            blen == self.notes@[bki as int].notes@.len(),
                            blen == bucket0.notes@.len(),
                            i < blen,
                            inner_now == crate::chart::spec_field_inner_at(field0, time_ms as int),
                            inner_now.wf(),
                            field0 == old(self).judge_fields@[k as int].field,
                            tracks0 == old(self).judge_fields@[k as int].info.judge_tracks@,
                            bucket0 == old(self).notes@[bki as int],
                            clicks0 == event.clicks@,
                            !bucket0.handled@[i as int],
                            phase_a_done(*old(self), *self, k as int, bki as int, clicks0,
                                time_ms as int, tracks0.len() as int),
                            notes_done(*old(self), *self, k as int, bki as int, clicks0,
                                time_ms as int, i as int),
                            forall|i9: int| i < i9 < blen ==> self.notes@[bki as int].handled@[
                                i9
                            ] == bucket0.handled@[i9],
                            forall|k9: int| 0 <= k9 < old(self).judge_fields@.len() && k9 != k
                                ==> self.judge_fields@[k9] == old(self).judge_fields@[k9],
                            forall|kb: int| 0 <= kb < old(self).notes@.len() && kb != bki
                                ==> self.notes@[kb] == old(self).notes@[kb],
                            forall|i9: int|
                                0 <= i9 < i && old(self).notes@[bki as int].notes@[
                                    i9
                                ].judge_time + crate::judge::FADE_WINDOW_MS < time_ms
                                    ==> self.notes@[bki as int].handled@[i9],
                            -crate::judge::FADE_WINDOW_MS <= delta <= crate::judge::FADE_WINDOW_MS,
                            delta == time_ms - self.notes@[bki as int].notes@[i as int].judge_time,
                            !show_click_effect ==> self.render_queue@ == old(self).render_queue@,
                            c <= event.clicks@.len(),
                            !consumed ==> !self.notes@[bki as int].handled@[i as int],
                            !consumed ==> spec_note_outcome(
                                bucket0.notes@[i as int],
                                crate::chart::spec_field_inner_at(field0, time_ms as int),
                                clicks0,
                                time_ms as int,
                            ) == spec_note_outcome(
                                bucket0.notes@[i as int],
                                crate::chart::spec_field_inner_at(field0, time_ms as int),
                                clicks0.skip(c as int),
                                time_ms as int,
                            ),
                            consumed ==> (match spec_note_outcome(
                                bucket0.notes@[i as int],
                                crate::chart::spec_field_inner_at(field0, time_ms as int),
                                clicks0,
                                time_ms as int,
                            ) {
                                Option::Some((c0, crate::judge::NoteAction::Grade(g))) => {
                                    &&& self.notes@[bki as int].handled@[i as int]
                                    &&& grade_recorded(*old(self), *self,
                                        bucket0.notes@[i as int].note_id, g)
                                },
                                Option::Some((c0, crate::judge::NoteAction::OpenTrack)) => exists|
                                    tj: int,
                                |
                                    0 <= tj < self.judge_fields@[
                                        k as int
                                    ].info.judge_tracks@.len() && (#[trigger] self.judge_fields@[
                                        k as int
                                    ].info.judge_tracks@[tj]).note_id == i as int
                                        && self.judge_fields@[k as int].info.judge_tracks@[
                                        tj
                                    ].linked_click == c0.id && self.judge_fields@[
                                        k as int
                                    ].info.judge_tracks@[tj].start_time == time_ms
                                        && self.judge_fields@[k as int].info.judge_tracks@[
                                        tj
                                    ].last_position == crate::judge::spec_clamp_point(
                                        c0.position,
                                    ),
                                Option::None => false,
                            }),
                        decreases event.clicks@.len() - c,
                    {
                        let click = event.clicks[c];
                        let p = crate::judge::clamp_point(click.position);
                        let inside = crate::judge::point_in_field(&inner_now, p);
                        proof {
                            assert(click == clicks0[c as int]);
                            assert(clicks0.skip(c as int)[0] == clicks0[c as int]);
                            assert(clicks0.skip(c as int).drop_first() =~= clicks0.skip(
                                c as int + 1,
                            ));
                            assert(self.notes@[bki as int].notes@[i as int] == bucket0.notes@[
                                i as int
                            ]);
                        }
                        if inside && !self.notes[bki].handled[i] {
                            match crate::judge::note_action(
                                click.state,
                                &self.notes[bki].notes[i].judge_type,
                                delta,
                            ) {
                                Some(crate::judge::NoteAction::OpenTrack) => {
                                    let ghost before_open = *self;
                                    proof {
                                        assert(spec_note_outcome(
                                            bucket0.notes@[i as int],
                                            crate::chart::spec_field_inner_at(
                                                field0,
                                                time_ms as int,
                                            ),
                                            clicks0,
                                            time_ms as int,
                                        ) == Option::Some(
                                            (click, crate::judge::NoteAction::OpenTrack),
                                        ));
                                    }
                                    self.open_track(k, bki, i, click.id, p, time_ms);
                                    proof {
                                        self.lemma_settle_push(
                                            *old(self),
                                            before_open,
                                            k as int,
                                            bki as int,
                                            clicks0,
                                            time_ms as int,
                                            i as int,
                                        );
                                        assert(self.judge_fields@[k as int].info.judge_tracks@[
                                            before_open.judge_fields@[
                                                k as int
                                            ].info.judge_tracks@.len() as int
                                        ].linked_click == click.id);
                                    }
                                    consumed = true;
                                },
                                Some(crate::judge::NoteAction::Grade(judge)) => {
                                    let ghost before_mark = *self;
                                    proof {
                                        assert(spec_note_outcome(
                                            bucket0.notes@[i as int],
                                            crate::chart::spec_field_inner_at(
                                                field0,
                                                time_ms as int,
                                            ),
                                            clicks0,
                                            time_ms as int,
                                        ) == Option::Some(
                                            (click, crate::judge::NoteAction::Grade(judge)),
                                        ));
                                    }
                                    self.mark_note_handled(bki, i);
                                    proof {
                                        self.lemma_fresh_grade_ok(
                                            before_mark,
                                            bki as int,
                                            i as int,
                                        );
                                    }
                                    let ghost mid = *self;
                                    self.record_grade(bki, i, judge, time_ms,
                                        show_click_effect);
                                    proof {
                                        let prelen = old(self).judge_vec@.len() as int;
                                        assert(self.judge_vec@.skip(prelen)
                                            =~= mid.judge_vec@.skip(prelen).push(judge));
                                        crate::score::lemma_apply_grades_snoc(
                                            old(self).scoring(),
                                            mid.judge_vec@.skip(prelen),
                                            judge,
                                        );
                                        lemma_prefix_push(
                                            old(self).judged_note_id@,
                                            mid.judged_note_id@,
                                            self.judged_note_id@[
                                                self.judged_note_id@.len() - 1
                                            ],
                                        );
                                        lemma_prefix_push(
                                            old(self).judge_vec@,
                                            mid.judge_vec@,
                                            judge,
                                        );
                                        assert(mid.render_queue@.is_prefix_of(
                                            self.render_queue@,
                                        )) by {
                                            assert(self.render_queue@.subrange(
                                                0,
                                                mid.render_queue@.len() as int,
                                            ) =~= self.render_queue@.take(
                                                mid.render_queue@.len() as int,
                                            ));
                                        }
                                        lemma_prefix_trans(
                                            old(self).render_queue@,
                                            mid.render_queue@,
                                            self.render_queue@,
                                        );
                                    }
                                    proof {
                                        self.lemma_settle_step(
                                            *old(self),
                                            before_mark,
                                            k as int,
                                            bki as int,
                                            clicks0,
                                            time_ms as int,
                                            i as int,
                                        );
                                        assert(mid.judged_note_id@.len()
                                            == mid.judge_vec@.len());
                                        lemma_just_recorded(
                                            *old(self),
                                            mid,
                                            *self,
                                            bucket0.notes@[i as int].note_id,
                                            judge,
                                        );
                                    }
                                    consumed = true;
                                },
                                None => {},
                            }
                        }
                        c += 1;
                    }
                    proof {
                        if !consumed {
                            assert(clicks0.skip(c as int) =~= Seq::<Click>::empty());
                            assert(spec_note_outcome(
                                bucket0.notes@[i as int],
                                crate::chart::spec_field_inner_at(field0, time_ms as int),
                                clicks0,
                                time_ms as int,
                            ) is None);
                        }
                        lemma_notes_done_extend(
                            *old(self),
                            *self,
                            k as int,
                            bki as int,
                            clicks0,
                            time_ms as int,
                            i as int,
                        );
                    }
                    i += 1;
                }
            }
        }
        proof {
            assert forall|i9: int|
                0 <= i9 < old(self).notes@[bki as int].handled@.len() && old(self).notes@[
                    bki as int
                ].notes@[i9].judge_time + crate::judge::FADE_WINDOW_MS < time_ms
                implies self.notes@[bki as int].handled@[i9] by {
                if i9 >= i {
                    assert(done);
                    assert(self.notes@[bki as int].notes@[i9].judge_time >= self.notes@[
                        bki as int
                    ].notes@[i as int].judge_time);
                }
            }
        }
        self.advance_cursor(k, bki);
    }

    /// After removing the resolved track, its note is handled, unjudged
    /// and bound to no remaining track of any slot.
    proof fn lemma_removed_untracked(&self, before: PlayInfo, k: int, bki: int, ti: int, ni: int)
        requires
            before.wf(),
            0 <= k < before.judge_fields@.len(),
            0 <= bki < before.notes@.len(),
            before.judge_fields@[k].id == before.notes@[bki].field_id,
            0 <= ti < before.judge_fields@[k].info.judge_tracks@.len(),
            ni == before.judge_fields@[k].info.judge_tracks@[ti].note_id,
            self.judge_fields@.len() == before.judge_fields@.len(),
            forall|k9: int| 0 <= k9 < before.judge_fields@.len() && k9 != k
                ==> self.judge_fields@[k9] == before.judge_fields@[k9],
            self.judge_fields@[k].id == before.judge_fields@[k].id,
            self.judge_fields@[k].info.judge_tracks@ == before.judge_fields@[
                k
            ].info.judge_tracks@.remove(ti),
            self.notes@ == before.notes@,
            self.judged_note_id@ == before.judged_note_id@,
        ensures
            self.notes@[bki].handled@[ni],
            0 <= ni < self.notes@[bki].notes@.len(),
            !self.id_judged(self.notes@[bki].notes@[ni].note_id),
            self.untracked(bki, ni),
    {
        assert(slot_bucket_ok(before.judge_fields@[k], before.notes@[bki]));
        assert forall|id: u64| #[trigger] self.id_judged(id) implies before.id_judged(id) by {
            let j = choose|j: int|
                0 <= j < self.judged_note_id@.len() && self.judged_note_id@[j] == id;
            assert(before.judged_note_id@[j] == id);
        }
        assert(self.untracked(bki, ni)) by {
            assert forall|k2: int, t: int|
                0 <= k2 < self.judge_fields@.len() && (#[trigger] self.judge_fields@[k2]).id
                    == self.notes@[bki].field_id && 0 <= t < self.judge_fields@[
                    k2
                ].info.judge_tracks@.len() implies (#[trigger] self.judge_fields@[
                k2
            ].info.judge_tracks@[t]).note_id != ni by {
                if k2 != k {
                    assert(self.judge_fields@[k2].id != self.judge_fields@[k].id);
                } else {
                    let pre_tracks = before.judge_fields@[k].info.judge_tracks@;
                    let src: int = if t < ti {
                        t
                    } else {
                        t + 1
                    };
                    assert(self.judge_fields@[k2].info.judge_tracks@[t] == pre_tracks[src]);
                    if pre_tracks[src].note_id == ni {
                        assert(pre_tracks[ti].note_id == ni);
                        assert(false);
                    }
                }
            }
        }
    }

    /// Book-keep the resolution of one open track: the slot's remaining
    /// tracks line up with the unscanned originals, and the settled
    /// prefix grows by the resolved track with its recorded grade.
    #[verifier::rlimit(100)]
    proof fn lemma_resolved_bookkeeping(&self, pre: PlayInfo, loop_head: PlayInfo,
        mid: PlayInfo, k: int, bki: int, ti: int, done: int, ni: int, judge: Judge,
        clicks: Seq<Click>, t: int)
        requires
            pre.wf(),
            loop_head.wf(),
            0 <= k < pre.judge_fields@.len(),
            0 <= bki < pre.notes@.len(),
            pre.judge_fields@[k].id == pre.notes@[bki].field_id,
            0 <= k < loop_head.judge_fields@.len(),
            0 <= bki < loop_head.notes@.len(),
            loop_head.judge_fields@[k].id == loop_head.notes@[bki].field_id,
            0 <= done < pre.judge_fields@[k].info.judge_tracks@.len(),
            0 <= ti < loop_head.judge_fields@[k].info.judge_tracks@.len(),
            loop_head.judge_fields@[k].info.judge_tracks@.skip(ti)
                == pre.judge_fields@[k].info.judge_tracks@.skip(done),
            ni == pre.judge_fields@[k].info.judge_tracks@[done].note_id,
            0 <= ni < pre.notes@[bki].notes@.len(),
            phase_a_done(pre, loop_head, k, bki, clicks, t, done),
            pre.judge_vec@.len() <= loop_head.judge_vec@.len(),
            spec_track_outcome(
                pre.notes@[bki].notes@[ni].judge_type,
                pre.notes@[bki].notes@[ni].judge_time as int,
                pre.judge_fields@[k].info.judge_tracks@[done],
                clicks,
                t,
            ) == Option::Some(judge),
            mid.judge_fields@[k].info.judge_tracks@ == loop_head.judge_fields@[
                k
            ].info.judge_tracks@.remove(ti),
            mid.judged_note_id@ == loop_head.judged_note_id@,
            mid.judge_vec@ == loop_head.judge_vec@,
            mid.judged_note_id@.len() == mid.judge_vec@.len(),
            0 <= k < mid.judge_fields@.len(),
            0 <= k < self.judge_fields@.len(),
            self.judge_fields@[k].info.judge_tracks@ == mid.judge_fields@[
                k
            ].info.judge_tracks@,
            self.judged_note_id@ == mid.judged_note_id@.push(pre.notes@[bki].notes@[ni].note_id),
            self.judge_vec@ == mid.judge_vec@.push(judge),
        ensures
            self.judge_fields@[k].info.judge_tracks@.skip(ti) == pre.judge_fields@[
                k
            ].info.judge_tracks@.skip(done + 1),
            self.judge_fields@[k].info.judge_tracks@.len() == loop_head.judge_fields@[
                k
            ].info.judge_tracks@.len() - 1,
            phase_a_done(pre, *self, k, bki, clicks, t, done + 1),
    {
        let tracks0 = pre.judge_fields@[k].info.judge_tracks@;
        let c1 = loop_head.judge_fields@[k].info.judge_tracks@;
        let c2 = self.judge_fields@[k].info.judge_tracks@;
        let track = c1[ti];
        assert(track == tracks0[done]) by {
            assert(c1.skip(ti)[0] == tracks0.skip(done)[0]);
        }
        assert(c2 == c1.remove(ti));
        assert(c1.len() - ti == tracks0.len() - done) by {
            assert(c1.skip(ti).len() == tracks0.skip(done).len());
        }
        assert(c2.skip(ti) =~= tracks0.skip(done + 1)) by {
            assert forall|q: int| 0 <= q < c2.len() - ti implies c2.skip(ti)[q] == tracks0.skip(
                done + 1,
            )[q] by {
                assert(c2.skip(ti)[q] == c2[ti + q]);
                assert(c2[ti + q] == c1[ti + q + 1]);
                assert(c1.skip(ti)[q + 1] == c1[ti + q + 1]);
                assert(c1.skip(ti)[q + 1] == tracks0.skip(done)[q + 1]);
                assert(tracks0.skip(done)[q + 1] == tracks0[done + q + 1]);
                assert(tracks0.skip(done + 1)[q] == tracks0[done + 1 + q]);
            }
        }
        assert forall|tj2: int| 0 <= tj2 < c2.len() implies exists|tj1: int|
            0 <= tj1 < c1.len() && #[trigger] c2[tj2] == c1[tj1] by {
            let src: int = if tj2 < ti {
                tj2
            } else {
                tj2 + 1
            };
            assert(c2[tj2] == c1[src]);
        }
        assert forall|tj1: int|
            0 <= tj1 < c1.len() && (#[trigger] c1[tj1]).note_id as int != ni implies exists|
            tj2: int,
        |
            0 <= tj2 < c2.len() && c1[tj1] == #[trigger] c2[tj2] by {
            assert(c1[ti] == track);
            assert(tj1 != ti);
            let dst: int = if tj1 < ti {
                tj1
            } else {
                tj1 - 1
            };
            assert(c2[dst] == c1[tj1]);
        }
        assert(slot_bucket_ok(pre.judge_fields@[k], pre.notes@[bki]));
        assert forall|d: int| 0 <= d < done implies (#[trigger] tracks0[d]).note_id as int
            != ni by {
            assert(tracks0[done].note_id == ni);
        }
        lemma_phase_a_done_step(pre, loop_head, *self, k, bki, clicks, t, done, ni);
        lemma_just_recorded(pre, mid, *self, pre.notes@[bki].notes@[ni].note_id, judge);
        assert forall|tj: int| 0 <= tj < c2.len() implies (#[trigger] c2[tj]).note_id as int
            != ni by {
            assert(slot_bucket_ok(loop_head.judge_fields@[k], loop_head.notes@[bki]));
            let src: int = if tj < ti {
                tj
            } else {
                tj + 1
            };
            assert(c2[tj] == c1[src]);
            if c1[src].note_id as int == ni {
                assert(c1[ti].note_id as int == ni);
                assert(false);
            }
        }
        lemma_phase_a_extend_some(pre, *self, k, bki, clicks, t, done, judge);
    }

    /// Carry the settled tracks and notes across a step that marks and
    /// grades the note under the scan, leaving the slot's tracks alone.
    proof fn lemma_settle_step(&self, pre: PlayInfo, before: PlayInfo, k: int, bki: int,
        clicks: Seq<Click>, t: int, i: int)
        requires
            0 <= k < pre.judge_fields@.len(),
            0 <= bki < pre.notes@.len(),
            0 <= k < before.judge_fields@.len(),
            0 <= bki < before.notes@.len(),
            0 <= k < self.judge_fields@.len(),
            0 <= bki < self.notes@.len(),
            notes_done(pre, before, k, bki, clicks, t, i),
            phase_a_done(pre, before, k, bki, clicks, t,
                pre.judge_fields@[k].info.judge_tracks@.len() as int),
            before.judged_note_id@.is_prefix_of(self.judged_note_id@),
            before.judge_vec@.is_prefix_of(self.judge_vec@),
            before.judged_note_id@.len() == before.judge_vec@.len(),
            pre.judge_vec@.len() <= before.judge_vec@.len(),
            self.judge_fields@[k].info.judge_tracks@ == before.judge_fields@[
                k
            ].info.judge_tracks@,
            forall|i9: int|
                0 <= i9 < i && i9 < before.notes@[bki].handled@.len()
                    ==> before.notes@[bki].handled@[i9] == self.notes@[bki].handled@[i9],
            before.notes@[bki].handled@.len() == self.notes@[bki].handled@.len(),
            before.notes@[bki].handled@.len() == pre.notes@[bki].notes@.len(),
        ensures
            notes_done(pre, *self, k, bki, clicks, t, i),
            phase_a_done(pre, *self, k, bki, clicks, t,
                pre.judge_fields@[k].info.judge_tracks@.len() as int),
    {
        let c1 = before.judge_fields@[k].info.judge_tracks@;
        assert(c1.is_prefix_of(self.judge_fields@[k].info.judge_tracks@)) by {
            assert(self.judge_fields@[k].info.judge_tracks@.subrange(0, c1.len() as int)
                =~= c1);
        }
        lemma_notes_done_step(pre, before, *self, k, bki, clicks, t, i);
        assert forall|tj2: int|
            0 <= tj2 < self.judge_fields@[k].info.judge_tracks@.len() implies exists|tj1: int|
            0 <= tj1 < c1.len() && #[trigger] self.judge_fields@[k].info.judge_tracks@[tj2]
                == c1[tj1] by {
            assert(self.judge_fields@[k].info.judge_tracks@[tj2] == c1[tj2]);
        }
        assert forall|tj1: int|
            0 <= tj1 < c1.len() && (#[trigger] c1[tj1]).note_id as int != -1 implies exists|
            tj2: int,
        |
            0 <= tj2 < self.judge_fields@[k].info.judge_tracks@.len() && c1[tj1]
                == #[trigger] self.judge_fields@[k].info.judge_tracks@[tj2] by {
            assert(self.judge_fields@[k].info.judge_tracks@[tj1] == c1[tj1]);
        }
        lemma_phase_a_done_step(pre, before, *self, k, bki, clicks, t,
            pre.judge_fields@[k].info.judge_tracks@.len() as int, -1);
    }

    /// Carry the settled tracks and notes across opening a track on the
    /// note under the scan.
    proof fn lemma_settle_push(&self, pre: PlayInfo, before: PlayInfo, k: int, bki: int,
        clicks: Seq<Click>, t: int, i: int)
        requires
            pre.wf(),
            0 <= k < pre.judge_fields@.len(),
            0 <= bki < pre.notes@.len(),
            pre.judge_fields@[k].id == pre.notes@[bki].field_id,
            0 <= k < before.judge_fields@.len(),
            0 <= bki < before.notes@.len(),
            0 <= k < self.judge_fields@.len(),
            0 <= bki < self.notes@.len(),
            0 <= i < pre.notes@[bki].notes@.len(),
            !pre.notes@[bki].handled@[i],
            pre.notes@[bki].handled@.len() == pre.notes@[bki].notes@.len(),
            notes_done(pre, before, k, bki, clicks, t, i),
            phase_a_done(pre, before, k, bki, clicks, t,
                pre.judge_fields@[k].info.judge_tracks@.len() as int),
            before.judged_note_id@.is_prefix_of(self.judged_note_id@),
            before.judge_vec@.is_prefix_of(self.judge_vec@),
            before.judged_note_id@.len() == before.judge_vec@.len(),
            pre.judge_vec@.len() <= before.judge_vec@.len(),
            self.judge_fields@[k].info.judge_tracks@.len() == before.judge_fields@[
                k
            ].info.judge_tracks@.len() + 1,
            forall|tj: int|
                0 <= tj < before.judge_fields@[k].info.judge_tracks@.len()
                    ==> self.judge_fields@[k].info.judge_tracks@[tj] == before.judge_fields@[
                    k
                ].info.judge_tracks@[tj],
            self.judge_fields@[k].info.judge_tracks@[
                before.judge_fields@[k].info.judge_tracks@.len() as int
            ].note_id == i,
            forall|i9: int|
                0 <= i9 < i && i9 < before.notes@[bki].handled@.len()
                    ==> before.notes@[bki].handled@[i9] == self.notes@[bki].handled@[i9],
            before.notes@[bki].handled@.len() == self.notes@[bki].handled@.len(),
            before.notes@[bki].handled@.len() == pre.notes@[bki].notes@.len(),
        ensures
            notes_done(pre, *self, k, bki, clicks, t, i),
            phase_a_done(pre, *self, k, bki, clicks, t,
                pre.judge_fields@[k].info.judge_tracks@.len() as int),
    {
        let c1 = before.judge_fields@[k].info.judge_tracks@;
        let c2 = self.judge_fields@[k].info.judge_tracks@;
        let tracks0 = pre.judge_fields@[k].info.judge_tracks@;
        assert(c1.is_prefix_of(c2)) by {
            assert(c2.subrange(0, c1.len() as int) =~= c1);
        }
        lemma_notes_done_step(pre, before, *self, k, bki, clicks, t, i);
        assert(slot_bucket_ok(pre.judge_fields@[k], pre.notes@[bki]));
        assert forall|d: int| 0 <= d < tracks0.len() implies (#[trigger] tracks0[d]).note_id
            as int != i by {
            assert(pre.notes@[bki].handled@[tracks0[d].note_id as int]);
        }
        assert forall|tj2: int| 0 <= tj2 < c2.len() implies ((exists|tj1: int|
            0 <= tj1 < c1.len() && #[trigger] c2[tj2] == c1[tj1]) || (forall|d: int|
            0 <= d < tracks0.len() ==> (#[trigger] tracks0[d]).note_id != c2[tj2].note_id)) by {
            if tj2 < c1.len() {
                assert(c2[tj2] == c1[tj2]);
            } else {
                assert(c2[tj2].note_id == i);
            }
        }
        assert forall|tj1: int|
            0 <= tj1 < c1.len() && (#[trigger] c1[tj1]).note_id as int != -1 implies exists|
            tj2: int,
        |
            0 <= tj2 < c2.len() && c1[tj1] == #[trigger] c2[tj2] by {
            assert(c2[tj1] == c1[tj1]);
        }
        lemma_phase_a_done_step(pre, before, *self, k, bki, clicks, t, tracks0.len() as int,
            -1);
    }

    /// After marking a fresh note handled, it is neither judged nor
    /// tracked, and the pending count leaves room for its grade.
    proof fn lemma_fresh_grade_ok(&self, before_mark: PlayInfo, bki: int, i: int)
        requires
            before_mark.wf(),
            0 <= bki < before_mark.notes@.len(),
            0 <= i < before_mark.notes@[bki].notes@.len(),
            !before_mark.notes@[bki].handled@[i],
            self.wf(),
            self.notes@.len() == before_mark.notes@.len(),
            self.notes@[bki].notes@ == before_mark.notes@[bki].notes@,
            self.notes@[bki].field_id == before_mark.notes@[bki].field_id,
            self.notes@[bki].handled@ == before_mark.notes@[bki].handled@.update(i, true),
            buckets_unhandled(self.notes@) == buckets_unhandled(before_mark.notes@) - 1,
            *self == (PlayInfo { notes: self.notes, ..before_mark }),
        ensures
            self.notes@[bki].handled@[i],
            !self.id_judged(self.notes@[bki].notes@[i].note_id),
            self.untracked(bki, i),
            self.judged_notes + slots_tracks(self.judge_fields@) + buckets_unhandled(
                self.notes@,
            ) < self.total_notes,
    {
        assert(!before_mark.id_judged(before_mark.notes@[bki].notes@[i].note_id)) by {
            if before_mark.id_judged(before_mark.notes@[bki].notes@[i].note_id) {
                assert(before_mark.notes@[bki].handled@[i]);
            }
        }
        assert(self.untracked(bki, i)) by {
            assert forall|k2: int, t: int|
                0 <= k2 < self.judge_fields@.len() && (#[trigger] self.judge_fields@[k2]).id
                    == self.notes@[bki].field_id && 0 <= t < self.judge_fields@[
                    k2
                ].info.judge_tracks@.len() implies (#[trigger] self.judge_fields@[
                k2
            ].info.judge_tracks@[t]).note_id != i by {
                assert(slot_bucket_ok(before_mark.judge_fields@[k2], before_mark.notes@[bki]));
                if self.judge_fields@[k2].info.judge_tracks@[t].note_id == i {
                    assert(before_mark.notes@[bki].handled@[i]);
                }
            }
        }
        crate::session::lemma_slots_tracks_nonneg(self.judge_fields@);
        crate::session::lemma_buckets_len_nonneg(self.notes@);
    }
}

/// What the host must do with the audio collaborator after a frame: the
/// scheduler decides, the host performs.
#[derive(Clone, Copy, PartialEq, Eq, Structural, Debug)]
pub enum AudioAction {
    /// Leave playback as it is.
    Keep,
    /// Start playing the music track from the carried offset (in
    /// milliseconds of track time).
    Play(i64),
    /// Pause playback (the session is finished).
    Pause,
}

/// The admission cursor after admitting every not-yet-admitted shape
/// whose start time has come; shapes are sorted, so admission stops at
/// the first shape still in the future.
pub open spec fn admitted_to(shapes: Seq<Shape>, cur: int, t: int) -> int
    decreases shapes.len() - cur,
    when 0 <= cur <= shapes.len()
{
    if cur < shapes.len() && shapes[cur].start_time <= t {
        admitted_to(shapes, cur + 1, t)
    } else {
        cur
    }
}

/// Admission never moves the cursor backwards nor past the end.
proof fn lemma_admitted_to_bounds(shapes: Seq<Shape>, cur: int, t: int)
    requires
        0 <= cur <= shapes.len(),
    ensures
        cur <= admitted_to(shapes, cur, t) <= shapes.len(),
    decreases shapes.len() - cur,
{
    if cur < shapes.len() && shapes[cur].start_time <= t {
        lemma_admitted_to_bounds(shapes, cur + 1, t);
    }
}

/// Whether a shape still belongs in the render queue at effective time
/// `t`: its active window contains `t`, and it is not tied to a
/// non-empty set of notes that are all already judged.
pub open spec fn shape_visible(judged: Seq<u64>, shape: Shape, t: int) -> bool {
    &&& shape.start_time <= t
    &&& shape.start_time + shape.sustain_time >= t
    &&& match shape.linked_note_id {
        Option::None => true,
        Option::Some(ids) => !(ids@.len() > 0 && forall|j: int|
            0 <= j < ids@.len() ==> judged.contains(#[trigger] ids@[j])),
    }
}

/// The shapes of `q`, in order, that are still visible at `t`.
pub open spec fn kept_shapes(judged: Seq<u64>, q: Seq<Shape>, t: int) -> Seq<Shape>
    decreases q.len(),
{
    if q.len() == 0 {
        Seq::empty()
    } else {
        let rest = kept_shapes(judged, q.drop_first(), t);
        if shape_visible(judged, q[0], t) {
            seq![q[0]] + rest
        } else {
            rest
        }
    }
}

/// Extending the scanned part of the queue extends the kept shapes by
/// the scanned shape when it is visible.
proof fn lemma_kept_shapes_take(judged: Seq<u64>, q: Seq<Shape>, t: int, i: int)
    requires
        0 <= i < q.len(),
    ensures
        kept_shapes(judged, q.take(i + 1), t) == if shape_visible(judged, q[i], t) {
            kept_shapes(judged, q.take(i), t).push(q[i])
        } else {
            kept_shapes(judged, q.take(i), t)
        },
    decreases i,
{
    if i == 0 {
        assert(q.take(1).drop_first() =~= q.take(0));
        if shape_visible(judged, q[0], t) {
            assert(seq![q[0]] + Seq::<Shape>::empty() =~= kept_shapes(judged, q.take(0), t).push(
                q[0],
            ));
        }
    } else {
        assert(q.take(i + 1).drop_first() =~= q.drop_first().take(i));
        assert(q.take(i).drop_first() =~= q.drop_first().take(i - 1));
        lemma_kept_shapes_take(judged, q.drop_first(), t, i - 1);
        assert(q.drop_first()[i - 1] == q[i]);
        if shape_visible(judged, q[i], t) && shape_visible(judged, q[0], t) {
            assert(seq![q[0]] + kept_shapes(judged, q.drop_first().take(i - 1), t).push(q[i])
                =~= (seq![q[0]] + kept_shapes(judged, q.drop_first().take(i - 1), t)).push(q[i]));
        }
    }
}

/// Membership in the kept shapes: exactly the visible shapes of the
/// scanned run survive.
pub proof fn lemma_kept_shapes_membership(judged: Seq<u64>, q: Seq<Shape>, t: int, s: Shape)
    ensures
        kept_shapes(judged, q, t).contains(s) <==> (q.contains(s) && shape_visible(judged, s, t)),
    decreases q.len(),
{
    if q.len() > 0 {
        lemma_kept_shapes_membership(judged, q.drop_first(), t, s);
        let rest = kept_shapes(judged, q.drop_first(), t);
        if shape_visible(judged, q[0], t) {
            assert(kept_shapes(judged, q, t) == seq![q[0]] + rest);
            if kept_shapes(judged, q, t).contains(s) {
                let w = choose|w: int|
                    0 <= w < kept_shapes(judged, q, t).len() && kept_shapes(judged, q, t)[w] == s;
                if w == 0 {
                    assert(q[0] == s);
                    assert(q.contains(s));
                } else {
                    assert(rest[w - 1] == s);
                    assert(rest.contains(s));
                    let v = choose|v: int| 0 <= v < q.drop_first().len() && q.drop_first()[v] == s;
                    assert(q[v + 1] == s);
                    assert(q.contains(s));
                }
            }
            if q.contains(s) && shape_visible(judged, s, t) {
                let w = choose|w: int| 0 <= w < q.len() && q[w] == s;
                if w == 0 {
                    assert(kept_shapes(judged, q, t)[0] == s);
                } else {
                    assert(q.drop_first()[w - 1] == s);
                    assert(q.drop_first().contains(s));
                    let v = choose|v: int| 0 <= v < rest.len() && rest[v] == s;
                    assert(kept_shapes(judged, q, t)[v + 1] == s);
                }
            }
        } else {
            if q.contains(s) && shape_visible(judged, s, t) {
                let w = choose|w: int| 0 <= w < q.len() && q[w] == s;
                assert(w != 0);
                assert(q.drop_first()[w - 1] == s);
                assert(q.drop_first().contains(s));
            }
            if kept_shapes(judged, q, t).contains(s) {
                let v = choose|v: int| 0 <= v < q.drop_first().len() && q.drop_first()[v] == s;
                assert(q[v + 1] == s);
                assert(q.contains(s));
            }
        }
    }
}

/// Shapes holding the same data are visible at the same times.
proof fn lemma_shape_like_visible(judged: Seq<u64>, a: Shape, b: Shape, t: int)
    requires
        crate::chart::shape_like(a, b),
    ensures
        shape_visible(judged, a, t) == shape_visible(judged, b, t),
{
}

/// A run of shapes holds the same data as itself.
proof fn lemma_shapes_like_refl(a: Seq<Shape>)
    ensures
        crate::chart::shapes_like(a, a),
{
    assert forall|i: int| 0 <= i < a.len() implies crate::chart::shape_like(
        #[trigger] a[i],
        a[i],
    ) by {
    }
}

/// Filtering two runs that hold the same data keeps runs that hold the
/// same data.
proof fn lemma_kept_shapes_like(judged: Seq<u64>, a: Seq<Shape>, b: Seq<Shape>, t: int)
    requires
        crate::chart::shapes_like(a, b),
    ensures
        crate::chart::shapes_like(kept_shapes(judged, a, t), kept_shapes(judged, b, t)),
    decreases a.len(),
{
    if a.len() > 0 {
        assert(crate::chart::shape_like(a[0], b[0]));
        lemma_shape_like_visible(judged, a[0], b[0], t);
        assert(crate::chart::shapes_like(a.drop_first(), b.drop_first())) by {
            assert forall|i: int| 0 <= i < a.drop_first().len() implies crate::chart::shape_like(
                #[trigger] a.drop_first()[i],
                b.drop_first()[i],
            ) by {
                assert(a.drop_first()[i] == a[i + 1]);
                assert(b.drop_first()[i] == b[i + 1]);
            }
        }
        lemma_kept_shapes_like(judged, a.drop_first(), b.drop_first(), t);
        let ka = kept_shapes(judged, a, t);
        let kb = kept_shapes(judged, b, t);
        let ra = kept_shapes(judged, a.drop_first(), t);
        let rb = kept_shapes(judged, b.drop_first(), t);
        if shape_visible(judged, a[0], t) {
            assert forall|i: int| 0 <= i < ka.len() implies crate::chart::shape_like(
                #[trigger] ka[i],
                kb[i],
            ) by {
                if i == 0 {
                    assert(ka[0] == a[0]);
                    assert(kb[0] == b[0]);
                } else {
                    assert(ka[i] == ra[i - 1]);
                    assert(kb[i] == rb[i - 1]);
                }
            }
        }
    }
}

/// Whether a judge field's active window has not yet ended at `t`.
pub open spec fn slot_alive(slot: FieldSlot, t: int) -> bool {
    slot.field.start_time + slot.field.sustain_time >= t
}

/// The slots of `slots`, in order, whose active window has not ended.
pub open spec fn alive_slots(slots: Seq<FieldSlot>, t: int) -> Seq<FieldSlot>
    decreases slots.len(),
{
    if slots.len() == 0 {
        Seq::empty()
    } else {
        let rest = alive_slots(slots.drop_first(), t);
        if slot_alive(slots[0], t) {
            seq![slots[0]] + rest
        } else {
            rest
        }
    }
}

/// Extending the scanned part extends the surviving slots by the
/// scanned slot when it is still alive.
proof fn lemma_alive_slots_take(slots: Seq<FieldSlot>, t: int, i: int)
    requires
        0 <= i < slots.len(),
    ensures
        alive_slots(slots.take(i + 1), t) == if slot_alive(slots[i], t) {
            alive_slots(slots.take(i), t).push(slots[i])
        } else {
            alive_slots(slots.take(i), t)
        },
    decreases i,
{
    if i == 0 {
        assert(slots.take(1).drop_first() =~= slots.take(0));
        if slot_alive(slots[0], t) {
            assert(seq![slots[0]] + Seq::<FieldSlot>::empty() =~= alive_slots(
                slots.take(0),
                t,
            ).push(slots[0]));
        }
    } else {
        assert(slots.take(i + 1).drop_first() =~= slots.drop_first().take(i));
        assert(slots.take(i).drop_first() =~= slots.drop_first().take(i - 1));
        lemma_alive_slots_take(slots.drop_first(), t, i - 1);
        assert(slots.drop_first()[i - 1] == slots[i]);
        if slot_alive(slots[i], t) && slot_alive(slots[0], t) {
            assert(seq![slots[0]] + alive_slots(slots.drop_first().take(i - 1), t).push(slots[i])
                =~= (seq![slots[0]] + alive_slots(slots.drop_first().take(i - 1), t)).push(
                slots[i],
            ));
        }
    }
}

/// Every surviving slot is one of the original slots.
proof fn lemma_alive_slots_contains(slots: Seq<FieldSlot>, t: int, i: int)
    requires
        0 <= i < alive_slots(slots, t).len(),
    ensures
        exists|j: int| 0 <= j < slots.len() && alive_slots(slots, t)[i] == #[trigger] slots[j],
    decreases slots.len(),
{
    let rest = alive_slots(slots.drop_first(), t);
    if slot_alive(slots[0], t) {
        if i == 0 {
            assert(alive_slots(slots, t)[0] == slots[0]);
        } else {
            lemma_alive_slots_contains(slots.drop_first(), t, i - 1);
            let j = choose|j: int|
                0 <= j < slots.drop_first().len() && rest[i - 1] == #[trigger] slots.drop_first()[
                    j
                ];
            assert(alive_slots(slots, t)[i] == slots[j + 1]);
        }
    } else {
        lemma_alive_slots_contains(slots.drop_first(), t, i);
        let j = choose|j: int|
            0 <= j < slots.drop_first().len() && rest[i] == #[trigger] slots.drop_first()[j];
        assert(alive_slots(slots, t)[i] == slots[j + 1]);
    }
}

/// Surviving slots keep distinct ids when the originals had them.
proof fn lemma_alive_slots_distinct(slots: Seq<FieldSlot>, t: int)
    requires
        forall|k1: int, k2: int| 0 <= k1 < k2 < slots.len()
            ==> (#[trigger] slots[k1]).id != (#[trigger] slots[k2]).id,
    ensures
        forall|k1: int, k2: int| 0 <= k1 < k2 < alive_slots(slots, t).len()
            ==> (#[trigger] alive_slots(slots, t)[k1]).id != (
            #[trigger] alive_slots(slots, t)[k2]).id,
    decreases slots.len(),
{
    if slots.len() > 0 {
        lemma_alive_slots_distinct(slots.drop_first(), t);
        let rest = alive_slots(slots.drop_first(), t);
        assert forall|k1: int, k2: int| 0 <= k1 < k2 < alive_slots(slots, t).len() implies (
        #[trigger] alive_slots(slots, t)[k1]).id != (#[trigger] alive_slots(slots, t)[k2]).id
            by {
            if slot_alive(slots[0], t) {
                if k1 == 0 {
                    assert(alive_slots(slots, t)[k2] == rest[k2 - 1]);
                    lemma_alive_slots_contains(slots.drop_first(), t, k2 - 1);
                    let j = choose|j: int|
                        0 <= j < slots.drop_first().len() && rest[k2 - 1]
                            == #[trigger] slots.drop_first()[j];
                    assert(slots[0].id != slots[j + 1].id);
                } else {
                    assert(alive_slots(slots, t)[k1] == rest[k1 - 1]);
                    assert(alive_slots(slots, t)[k2] == rest[k2 - 1]);
                }
            } else {
                assert(alive_slots(slots, t)[k1] == rest[k1]);
                assert(alive_slots(slots, t)[k2] == rest[k2]);
            }
        }
    }
}

/// Surviving slots never carry more open tracks than the originals.
proof fn lemma_alive_slots_tracks(slots: Seq<FieldSlot>, t: int)
    ensures
        slots_tracks(alive_slots(slots, t)) <= slots_tracks(slots),
        slots_tracks(alive_slots(slots, t)) >= 0,
    decreases slots.len(),
{
    crate::session::lemma_slots_tracks_nonneg(alive_slots(slots, t));
    if slots.len() > 0 {
        lemma_alive_slots_tracks(slots.drop_first(), t);
        if slot_alive(slots[0], t) {
            assert(alive_slots(slots, t) == seq![slots[0]] + alive_slots(
                slots.drop_first(),
                t,
            ));
            assert(slots_tracks(alive_slots(slots, t)) == slots[0].info.judge_tracks@.len()
                + slots_tracks(alive_slots(slots.drop_first(), t))) by {
                let whole = alive_slots(slots, t);
                assert(whole[0] == slots[0]);
                assert(whole.drop_first() =~= alive_slots(slots.drop_first(), t));
            }
        }
    }
}

/// The event cursor after firing every event whose time has come;
/// events are sorted, so firing stops at the first future event.
pub open spec fn events_fired_to(events: Seq<crate::chart::ChartEvent>, cur: int, t: int) -> int
    decreases events.len() - cur,
    when 0 <= cur <= events.len()
{
    if cur < events.len() && events[cur].time <= t {
        events_fired_to(events, cur + 1, t)
    } else {
        cur
    }
}

/// What one fired event does to the active shader reference.
pub open spec fn apply_event(
    e: crate::chart::ChartEvent,
    shaders: Seq<u64>,
    cur: Option<u64>,
) -> Option<u64> {
    match e.inner {
        crate::chart::ChartEventInner::ChangeShader(target) => match target {
            Option::Some(id) => if shaders.contains(id) {
                Option::Some(id)
            } else {
                Option::None
            },
            Option::None => Option::None,
        },
        _ => cur,
    }
}

/// The active shader after firing the events from `from` up to `to`.
pub open spec fn shader_after(
    events: Seq<crate::chart::ChartEvent>,
    from: int,
    to: int,
    shaders: Seq<u64>,
    init: Option<u64>,
) -> Option<u64>
    decreases to - from,
    when from <= to
{
    if from >= to {
        init
    } else {
        shader_after(events, from + 1, to, shaders, apply_event(events[from], shaders, init))
    }
}

/// Firing one more event folds onto the end.
proof fn lemma_shader_after_snoc(
    events: Seq<crate::chart::ChartEvent>,
    from: int,
    to: int,
    shaders: Seq<u64>,
    init: Option<u64>,
)
    requires
        from <= to < events.len(),
    ensures
        shader_after(events, from, to + 1, shaders, init) == apply_event(
            events[to],
            shaders,
            shader_after(events, from, to, shaders, init),
        ),
    decreases to - from,
{
    if from < to {
        lemma_shader_after_snoc(
            events,
            from + 1,
            to,
            shaders,
            apply_event(events[from], shaders, init),
        );
    } else {
        assert(shader_after(events, from, to + 1, shaders, init) == shader_after(
            events,
            from + 1,
            to + 1,
            shaders,
            apply_event(events[from], shaders, init),
        ));
        assert(shader_after(events, from + 1, to + 1, shaders, apply_event(
            events[from],
            shaders,
            init,
        )) == apply_event(events[from], shaders, init));
        assert(shader_after(events, from, to, shaders, init) == init);
    }
}

/// What the frame scheduler does to a running session between the
/// lead-in countdown, the finish check, shape admission and eviction,
/// judge-field expiry and the event timeline — everything except the
/// auto-mode judgment that may follow.
pub open spec fn scheduler_rel(
    pre: PlayInfo,
    post: PlayInfo,
    time: int,
    global_offset: int,
    will_play_music: bool,
) -> bool {
    let play_time = time + pre.offset + global_offset - 3000;
    let t = time - 3000;
    &&& post.is_track_played == (pre.is_track_played || (play_time > 0 && will_play_music))
    &&& post.scoring() == pre.scoring()
    &&& post.judge_vec@ == pre.judge_vec@
    &&& post.judged_note_id@ == pre.judged_note_id@
    &&& post.play_mode == pre.play_mode
    &&& post.replay == pre.replay
    &&& post.sustain_time == pre.sustain_time
    &&& post.offset == pre.offset
    &&& post.shaders@ == pre.shaders@
    &&& post.events@ == pre.events@
    &&& post.total_notes == pre.total_notes
    &&& if time <= 3000 {
        &&& post.notes@ == pre.notes@
        &&& post.judge_fields@ == pre.judge_fields@
        &&& post.shapes@ == pre.shapes@
        &&& post.click_effects@ == pre.click_effects@
        &&& post.render_queue@ == pre.render_queue@
        &&& post.current_render == pre.current_render
        &&& post.current_event == pre.current_event
        &&& post.current_shader == pre.current_shader
        &&& post.is_finished == pre.is_finished
    } else if t > pre.sustain_time {
        &&& post.is_finished
        &&& post.notes@.len() == 0
        &&& post.judge_fields@.len() == 0
        &&& post.shapes@.len() == 0
        &&& post.click_effects@.len() == 0
        &&& post.render_queue@.len() == 0
        &&& post.current_render == 0
        &&& post.current_event == pre.current_event
        &&& post.current_shader == pre.current_shader
    } else {
        &&& post.is_finished == pre.is_finished
        &&& post.notes@ == pre.notes@
        &&& post.shapes@ == pre.shapes@
        &&& post.click_effects@ == pre.click_effects@
        &&& post.judge_fields@ == alive_slots(pre.judge_fields@, t)
        &&& post.current_render == admitted_to(pre.shapes@, pre.current_render as int, t)
        &&& crate::chart::shapes_like(
            post.render_queue@,
            kept_shapes(
                pre.judged_note_id@,
                pre.render_queue@ + pre.shapes@.subrange(
                    pre.current_render as int,
                    admitted_to(pre.shapes@, pre.current_render as int, t),
                ),
                t,
            ),
        )
        &&& post.current_event == events_fired_to(pre.events@, pre.current_event as int, t)
        &&& post.current_shader == shader_after(
            pre.events@,
            pre.current_event as int,
            post.current_event as int,
            pre.shaders@,
            pre.current_shader,
        )
    }
}

/// A prefix of a run stays a prefix when the run grows by one.
pub proof fn lemma_prefix_push<T>(a: Seq<T>, b: Seq<T>, x: T)
    requires
        a.is_prefix_of(b),
    ensures
        a.is_prefix_of(b.push(x)),
{
    assert(b.push(x).subrange(0, a.len() as int) =~= b.subrange(0, a.len() as int));
}

/// Being a prefix is transitive.
pub proof fn lemma_prefix_trans<T>(a: Seq<T>, b: Seq<T>, c: Seq<T>)
    requires
        a.is_prefix_of(b),
        b.is_prefix_of(c),
    ensures
        a.is_prefix_of(c),
{
    assert(c.subrange(0, a.len() as int) =~= b.subrange(0, a.len() as int));
}

/// Session parts the judgment engine never touches.
pub open spec fn judge_untouched(pre: PlayInfo, post: PlayInfo) -> bool {
    &&& post.shapes@ == pre.shapes@
    &&& post.current_render == pre.current_render
    &&& post.events@ == pre.events@
    &&& post.current_event == pre.current_event
    &&& post.current_shader == pre.current_shader
    &&& post.shaders@ == pre.shaders@
    &&& post.is_finished == pre.is_finished
    &&& post.is_track_played == pre.is_track_played
    &&& post.sustain_time == pre.sustain_time
    &&& post.offset == pre.offset
    &&& post.total_notes == pre.total_notes
    &&& post.play_mode == pre.play_mode
    &&& post.replay == pre.replay
    &&& post.click_effects@ == pre.click_effects@
}

/// Buckets keep their notes; the handled record only ever gains.
pub open spec fn buckets_monotone(pre: PlayInfo, post: PlayInfo) -> bool {
    &&& post.notes@.len() == pre.notes@.len()
    &&& forall|k: int| 0 <= k < pre.notes@.len() ==> {
        &&& (#[trigger] post.notes@[k]).notes@ == pre.notes@[k].notes@
        &&& post.notes@[k].field_id == pre.notes@[k].field_id
        &&& post.notes@[k].handled@.len() == pre.notes@[k].handled@.len()
    }
    &&& forall|k: int, i: int|
        #![trigger post.notes@[k].handled@[i]]
        0 <= k < pre.notes@.len() && 0 <= i < pre.notes@[k].handled@.len()
            && pre.notes@[k].handled@[i] ==> post.notes@[k].handled@[i]
}

/// Judge fields keep their identity and hit-area data; only the
/// per-field judging state moves.
pub open spec fn fields_static(pre: PlayInfo, post: PlayInfo) -> bool {
    &&& post.judge_fields@.len() == pre.judge_fields@.len()
    &&& forall|k: int| 0 <= k < pre.judge_fields@.len() ==> {
        &&& (#[trigger] post.judge_fields@[k]).id == pre.judge_fields@[k].id
        &&& post.judge_fields@[k].field == pre.judge_fields@[k].field
    }
}

/// The judged record, the grade list and the render queue only grow,
/// and the scoring accumulator is exactly the fold of the new grades
/// over the old accumulator.
pub open spec fn judge_progress(pre: PlayInfo, post: PlayInfo) -> bool {
    &&& pre.judged_note_id@.is_prefix_of(post.judged_note_id@)
    &&& pre.judge_vec@.is_prefix_of(post.judge_vec@)
    &&& pre.render_queue@.is_prefix_of(post.render_queue@)
    &&& post.scoring() == crate::score::apply_grades(
        pre.scoring(),
        post.judge_vec@.skip(pre.judge_vec@.len() as int),
    )
}

/// Everything one judgment call preserves, whatever the input was.
pub open spec fn judge_rel(pre: PlayInfo, post: PlayInfo) -> bool {
    &&& post.wf()
    &&& judge_untouched(pre, post)
    &&& buckets_monotone(pre, post)
    &&& fields_static(pre, post)
    &&& judge_progress(pre, post)
}

/// A note id, once inserted into the judged record, is never re-judged:
/// across any judgment call the record only grows, no id ever stands in
/// it twice, and every newly recorded id was absent before.
pub proof fn lemma_judged_once(pre: PlayInfo, post: PlayInfo)
    requires
        judge_rel(pre, post),
    ensures
        pre.judged_note_id@.is_prefix_of(post.judged_note_id@),
        post.judged_note_id@.len() >= pre.judged_note_id@.len(),
        forall|i: int, j: int| 0 <= i < j < post.judged_note_id@.len()
            ==> post.judged_note_id@[i] != post.judged_note_id@[j],
        forall|i: int| pre.judged_note_id@.len() <= i < post.judged_note_id@.len()
            ==> !pre.id_judged(#[trigger] post.judged_note_id@[i]),
{
    assert forall|i: int| pre.judged_note_id@.len() <= i < post.judged_note_id@.len()
        implies !pre.id_judged(#[trigger] post.judged_note_id@[i]) by {
        if pre.id_judged(post.judged_note_id@[i]) {
            let j = choose|j: int|
                0 <= j < pre.judged_note_id@.len() && pre.judged_note_id@[j]
                    == post.judged_note_id@[i];
            assert(pre.judged_note_id@ =~= post.judged_note_id@.subrange(
                0,
                pre.judged_note_id@.len() as int,
            ));
            assert(post.judged_note_id@[j] == post.judged_note_id@[i]);
        }
    }
}

/// One judgment step after another preserves everything a judgment call
/// preserves.
pub proof fn lemma_judge_rel_trans(a: PlayInfo, b: PlayInfo, c: PlayInfo)
    requires
        judge_rel(a, b),
        judge_rel(b, c),
    ensures
        judge_rel(a, c),
{
    lemma_prefix_trans(a.judged_note_id@, b.judged_note_id@, c.judged_note_id@);
    lemma_prefix_trans(a.judge_vec@, b.judge_vec@, c.judge_vec@);
    lemma_prefix_trans(a.render_queue@, b.render_queue@, c.render_queue@);
    let alen = a.judge_vec@.len() as int;
    let blen = b.judge_vec@.len() as int;
    assert(c.judge_vec@.skip(alen) =~= b.judge_vec@.skip(alen) + c.judge_vec@.skip(blen)) by {
        assert forall|j: int| 0 <= j < b.judge_vec@.len() implies b.judge_vec@[j]
            == c.judge_vec@[j] by {
            assert(b.judge_vec@ =~= c.judge_vec@.subrange(0, blen));
        }
    }
    crate::score::lemma_apply_grades_concat(
        a.scoring(),
        b.judge_vec@.skip(alen),
        c.judge_vec@.skip(blen),
    );
}

/// What an auto-mode judgment call does: every grade it produces is a
/// full-credit Immaculate, and exactly the not-yet-handled due notes of
/// the fields still present become handled — pointer input plays no
/// part.
pub open spec fn auto_judge_rel(pre: PlayInfo, post: PlayInfo, t: int) -> bool {
    &&& forall|j: int| pre.judge_vec@.len() <= j < post.judge_vec@.len()
        ==> post.judge_vec@[j] == Judge::Immaculate(crate::chart::PPM as u64)
    &&& forall|k: int, i: int|
        #![trigger post.notes@[k].handled@[i]]
        0 <= k < pre.notes@.len() && 0 <= i < pre.notes@[k].handled@.len()
            ==> post.notes@[k].handled@[i] == (pre.notes@[k].handled@[i] || (has_slot(
                pre,
                pre.notes@[k].field_id,
            ) && pre.notes@[k].notes@[i].judge_time < t))
}

/// The first grade an open track produces against the pointers of one
/// event, scanned in submission order; `None` keeps the track open.
pub open spec fn spec_track_outcome(
    judge_type: crate::chart::JudgeType,
    judge_time: int,
    track: JudgeTrack,
    clicks: Seq<Click>,
    t: int,
) -> Option<Judge>
    decreases clicks.len(),
{
    if clicks.len() == 0 {
        Option::None
    } else {
        match crate::judge::spec_resolve_track(judge_type, judge_time, track, clicks[0], t) {
            Option::Some(g) => Option::Some(g),
            Option::None => spec_track_outcome(
                judge_type,
                judge_time,
                track,
                clicks.drop_first(),
                t,
            ),
        }
    }
}

/// The first pointer of the event that lies inside the field's animated
/// hit-area and whose state prescribes an action for the note, together
/// with that action; `None` leaves the note pending.
pub open spec fn spec_note_outcome(
    note: crate::chart::Note,
    inner: crate::chart::JudgeFieldInner,
    clicks: Seq<Click>,
    t: int,
) -> Option<(Click, crate::judge::NoteAction)>
    decreases clicks.len(),
{
    if clicks.len() == 0 {
        Option::None
    } else {
        let c = clicks[0];
        if crate::judge::spec_point_in_field(inner, crate::judge::spec_clamp_point(c.position)) {
            match crate::judge::spec_note_action(c.state, note.judge_type, t - note.judge_time) {
                Option::Some(a) => Option::Some((c, a)),
                Option::None => spec_note_outcome(note, inner, clicks.drop_first(), t),
            }
        } else {
            spec_note_outcome(note, inner, clicks.drop_first(), t)
        }
    }
}

/// This call appended a grade for note `id`: at some new position the
/// judged record holds `id` and the grade list holds `g`.
pub open spec fn grade_recorded(pre: PlayInfo, post: PlayInfo, id: u64, g: Judge) -> bool {
    exists|j: int|
        pre.judge_vec@.len() <= j < post.judge_vec@.len() && #[trigger] post.judged_note_id@[j]
            == id && post.judge_vec@[j] == g
}

/// A grade once recorded stays recorded while the judged record and the
/// grade list only grow.
pub proof fn lemma_grade_recorded_lift(a: PlayInfo, b: PlayInfo, c: PlayInfo, d: PlayInfo,
    id: u64, g: Judge)
    requires
        grade_recorded(b, c, id, g),
        a.judge_vec@.len() <= b.judge_vec@.len(),
        c.judged_note_id@.is_prefix_of(d.judged_note_id@),
        c.judge_vec@.is_prefix_of(d.judge_vec@),
        c.judged_note_id@.len() == c.judge_vec@.len(),
    ensures
        grade_recorded(a, d, id, g),
{
    let j = choose|j: int|
        b.judge_vec@.len() <= j < c.judge_vec@.len() && #[trigger] c.judged_note_id@[j] == id
            && c.judge_vec@[j] == g;
    assert(c.judged_note_id@ =~= d.judged_note_id@.subrange(0, c.judged_note_id@.len() as int));
    assert(c.judge_vec@ =~= d.judge_vec@.subrange(0, c.judge_vec@.len() as int));
    assert(d.judged_note_id@[j] == id && d.judge_vec@[j] == g);
}

/// The grade just pushed together with its note id is recorded.
proof fn lemma_just_recorded(pre: PlayInfo, mid: PlayInfo, post: PlayInfo, id: u64, g: Judge)
    requires
        pre.judge_vec@.len() <= mid.judge_vec@.len(),
        mid.judged_note_id@.len() == mid.judge_vec@.len(),
        post.judged_note_id@ == mid.judged_note_id@.push(id),
        post.judge_vec@ == mid.judge_vec@.push(g),
    ensures
        grade_recorded(pre, post, id, g),
{
    let j = mid.judge_vec@.len() as int;
    assert(post.judged_note_id@[j] == id && post.judge_vec@[j] == g);
}

/// What one normal-mode judgment call does to the judge field at slot
/// `k` and its bucket `b`, given the event's pointers and the judgable
/// time: every open track that some pointer resolves (per
/// [`crate::judge::spec_resolve_track`], first pointer sharing its id
/// that produces a grade) has its grade recorded and its note no longer
/// tracked, and every unresolved track persists; every unhandled note
/// more than the miss window overdue gets a recorded Miss; every
/// unhandled in-window note takes the action of the first pointer
/// inside the animated hit-area (per [`crate::judge::spec_note_action`]):
/// a grade is recorded, or a track bound to exactly that pointer is
/// opened, and a note no pointer consumes stays pending; and notes not
/// yet within the window are untouched.
pub open spec fn normal_field_rel(
    pre: PlayInfo,
    post: PlayInfo,
    k: int,
    b: int,
    clicks: Seq<Click>,
    t: int,
) -> bool {
    let bucket = pre.notes@[b];
    let tracks0 = pre.judge_fields@[k].info.judge_tracks@;
    let inner_t = crate::chart::spec_field_inner_at(pre.judge_fields@[k].field, t);
    let post_tracks = post.judge_fields@[k].info.judge_tracks@;
    &&& forall|ti: int|
        0 <= ti < tracks0.len() && (#[trigger] tracks0[ti]).note_id < bucket.notes@.len()
            ==> (match spec_track_outcome(
            bucket.notes@[tracks0[ti].note_id as int].judge_type,
            bucket.notes@[tracks0[ti].note_id as int].judge_time as int,
            tracks0[ti],
            clicks,
            t,
        ) {
            Option::Some(g) => grade_recorded(
                pre,
                post,
                bucket.notes@[tracks0[ti].note_id as int].note_id,
                g,
            ) && forall|tj: int|
                0 <= tj < post_tracks.len() ==> (#[trigger] post_tracks[tj]).note_id
                    != tracks0[ti].note_id,
            Option::None => exists|tj: int|
                0 <= tj < post_tracks.len() && #[trigger] post_tracks[tj] == tracks0[ti],
        })
    &&& forall|i: int|
        #![trigger bucket.notes@[i]]
        0 <= i < bucket.notes@.len() && !bucket.handled@[i] ==> {
            let note = bucket.notes@[i];
            let delta = t - note.judge_time;
            if delta > crate::judge::FADE_WINDOW_MS {
                &&& post.notes@[b].handled@[i]
                &&& grade_recorded(pre, post, note.note_id, Judge::Miss)
            } else if delta >= -crate::judge::FADE_WINDOW_MS {
                match spec_note_outcome(note, inner_t, clicks, t) {
                    Option::Some((c, crate::judge::NoteAction::Grade(g))) => {
                        &&& post.notes@[b].handled@[i]
                        &&& grade_recorded(pre, post, note.note_id, g)
                    },
                    Option::Some((c, crate::judge::NoteAction::OpenTrack)) => exists|tj: int|
                        0 <= tj < post_tracks.len() && (#[trigger] post_tracks[tj]).note_id == i
                            && post_tracks[tj].linked_click == c.id && post_tracks[tj].start_time
                            == t && post_tracks[tj].last_position
                            == crate::judge::spec_clamp_point(c.position),
                    Option::None => !post.notes@[b].handled@[i],
                }
            } else {
                !post.notes@[b].handled@[i]
            }
        }
}

/// The first `done` open tracks of slot `k` are settled against the
/// event: resolved ones have their grade recorded and their note no
/// longer tracked, unresolved ones persist.
pub open spec fn phase_a_done(
    pre: PlayInfo,
    cur: PlayInfo,
    k: int,
    bki: int,
    clicks: Seq<Click>,
    t: int,
    done: int,
) -> bool {
    let bucket = pre.notes@[bki];
    let tracks0 = pre.judge_fields@[k].info.judge_tracks@;
    let cur_tracks = cur.judge_fields@[k].info.judge_tracks@;
    forall|d: int|
        0 <= d < done && (#[trigger] tracks0[d]).note_id < bucket.notes@.len()
            ==> (match spec_track_outcome(
            bucket.notes@[tracks0[d].note_id as int].judge_type,
            bucket.notes@[tracks0[d].note_id as int].judge_time as int,
            tracks0[d],
            clicks,
            t,
        ) {
            Option::Some(g) => grade_recorded(
                pre,
                cur,
                bucket.notes@[tracks0[d].note_id as int].note_id,
                g,
            ) && forall|tj: int|
                0 <= tj < cur_tracks.len() ==> (#[trigger] cur_tracks[tj]).note_id
                    != tracks0[d].note_id,
            Option::None => exists|tj: int|
                0 <= tj < cur_tracks.len() && #[trigger] cur_tracks[tj] == tracks0[d],
        })
}

/// The first `upto` notes of bucket `bki` that were pending when the
/// call began are settled against the event.
pub open spec fn notes_done(
    pre: PlayInfo,
    cur: PlayInfo,
    k: int,
    bki: int,
    clicks: Seq<Click>,
    t: int,
    upto: int,
) -> bool {
    let bucket = pre.notes@[bki];
    let inner_t = crate::chart::spec_field_inner_at(pre.judge_fields@[k].field, t);
    let cur_tracks = cur.judge_fields@[k].info.judge_tracks@;
    forall|i: int|
        #![trigger bucket.notes@[i]]
        0 <= i < upto && i < bucket.notes@.len() && !bucket.handled@[i] ==> {
            let note = bucket.notes@[i];
            let delta = t - note.judge_time;
            if delta > crate::judge::FADE_WINDOW_MS {
                &&& cur.notes@[bki].handled@[i]
                &&& grade_recorded(pre, cur, note.note_id, Judge::Miss)
            } else if delta >= -crate::judge::FADE_WINDOW_MS {
                match spec_note_outcome(note, inner_t, clicks, t) {
                    Option::Some((c, crate::judge::NoteAction::Grade(g))) => {
                        &&& cur.notes@[bki].handled@[i]
                        &&& grade_recorded(pre, cur, note.note_id, g)
                    },
                    Option::Some((c, crate::judge::NoteAction::OpenTrack)) => exists|tj: int|
                        0 <= tj < cur_tracks.len() && (#[trigger] cur_tracks[tj]).note_id == i
                            && cur_tracks[tj].linked_click == c.id && cur_tracks[tj].start_time
                            == t && cur_tracks[tj].last_position
                            == crate::judge::spec_clamp_point(c.position),
                    Option::None => !cur.notes@[bki].handled@[i],
                }
            } else {
                !cur.notes@[bki].handled@[i]
            }
        }
}

/// Settled tracks stay settled across a step that keeps (or extends)
/// the slot's tracks, keeps the settled tracks' absence, and only grows
/// the judged record.
proof fn lemma_phase_a_done_step(
    pre: PlayInfo,
    cur1: PlayInfo,
    cur2: PlayInfo,
    k: int,
    bki: int,
    clicks: Seq<Click>,
    t: int,
    done: int,
    except: int,
)
    requires
        phase_a_done(pre, cur1, k, bki, clicks, t, done),
        0 <= k < pre.judge_fields@.len(),
        0 <= bki < pre.notes@.len(),
        0 <= k < cur1.judge_fields@.len(),
        0 <= k < cur2.judge_fields@.len(),
        cur1.judged_note_id@.is_prefix_of(cur2.judged_note_id@),
        cur1.judge_vec@.is_prefix_of(cur2.judge_vec@),
        cur1.judged_note_id@.len() == cur1.judge_vec@.len(),
        pre.judge_vec@.len() <= cur1.judge_vec@.len(),
        // no settled track binds the excepted note
        forall|d: int|
            0 <= d < done ==> (#[trigger] pre.judge_fields@[k].info.judge_tracks@[d]).note_id
                as int != except,
        // every track of cur2 is a track of cur1 or binds a different
        // note than each settled track
        forall|tj2: int|
            0 <= tj2 < cur2.judge_fields@[k].info.judge_tracks@.len() ==> ((exists|tj1: int|
                0 <= tj1 < cur1.judge_fields@[k].info.judge_tracks@.len()
                    && #[trigger] cur2.judge_fields@[k].info.judge_tracks@[tj2]
                    == cur1.judge_fields@[k].info.judge_tracks@[tj1]) || (forall|d: int|
                0 <= d < done ==> (#[trigger] pre.judge_fields@[k].info.judge_tracks@[d]).note_id
                    != cur2.judge_fields@[k].info.judge_tracks@[tj2].note_id)),
        // every track of cur1 away from the excepted note survives
        forall|tj1: int|
            0 <= tj1 < cur1.judge_fields@[k].info.judge_tracks@.len() && (
            #[trigger] cur1.judge_fields@[k].info.judge_tracks@[tj1]).note_id as int != except
                ==> exists|tj2: int|
                0 <= tj2 < cur2.judge_fields@[k].info.judge_tracks@.len()
                    && cur1.judge_fields@[k].info.judge_tracks@[tj1]
                    == #[trigger] cur2.judge_fields@[k].info.judge_tracks@[tj2],
    ensures
        phase_a_done(pre, cur2, k, bki, clicks, t, done),
{
    let bucket = pre.notes@[bki];
    let tracks0 = pre.judge_fields@[k].info.judge_tracks@;
    let c1 = cur1.judge_fields@[k].info.judge_tracks@;
    let c2 = cur2.judge_fields@[k].info.judge_tracks@;
    assert forall|d: int|
        0 <= d < done && (#[trigger] tracks0[d]).note_id < bucket.notes@.len()
        implies (match spec_track_outcome(
        bucket.notes@[tracks0[d].note_id as int].judge_type,
        bucket.notes@[tracks0[d].note_id as int].judge_time as int,
        tracks0[d],
        clicks,
        t,
    ) {
        Option::Some(g) => grade_recorded(
            pre,
            cur2,
            bucket.notes@[tracks0[d].note_id as int].note_id,
            g,
        ) && forall|tj: int|
            0 <= tj < c2.len() ==> (#[trigger] c2[tj]).note_id != tracks0[d].note_id,
        Option::None => exists|tj: int| 0 <= tj < c2.len() && #[trigger] c2[tj] == tracks0[d],
    }) by {
        match spec_track_outcome(
            bucket.notes@[tracks0[d].note_id as int].judge_type,
            bucket.notes@[tracks0[d].note_id as int].judge_time as int,
            tracks0[d],
            clicks,
            t,
        ) {
            Option::Some(g) => {
                lemma_grade_recorded_lift(
                    pre,
                    pre,
                    cur1,
                    cur2,
                    bucket.notes@[tracks0[d].note_id as int].note_id,
                    g,
                );
                assert forall|tj: int| 0 <= tj < c2.len() implies (#[trigger] c2[tj]).note_id
                    != tracks0[d].note_id by {
                    if exists|tj1: int| 0 <= tj1 < c1.len() && #[trigger] c2[tj] == c1[tj1] {
                        let tj1 = choose|tj1: int|
                            0 <= tj1 < c1.len() && #[trigger] c2[tj] == c1[tj1];
                        assert(c1[tj1].note_id != tracks0[d].note_id);
                    }
                }
            },
            Option::None => {
                let tj1 = choose|tj: int| 0 <= tj < c1.len() && #[trigger] c1[tj] == tracks0[d];
                assert(c1[tj1].note_id as int != except);
                let tj2 = choose|tj2: int|
                    0 <= tj2 < c2.len() && c1[tj1] == #[trigger] c2[tj2];
                assert(c2[tj2] == tracks0[d]);
            },
        }
    }
}

/// Settling one more track whose pointer scan produced a grade.
proof fn lemma_phase_a_extend_some(
    pre: PlayInfo,
    cur: PlayInfo,
    k: int,
    bki: int,
    clicks: Seq<Click>,
    t: int,
    done: int,
    g: Judge,
)
    requires
        phase_a_done(pre, cur, k, bki, clicks, t, done),
        0 <= k < pre.judge_fields@.len(),
        0 <= bki < pre.notes@.len(),
        0 <= k < cur.judge_fields@.len(),
        0 <= done < pre.judge_fields@[k].info.judge_tracks@.len(),
        pre.judge_fields@[k].info.judge_tracks@[done].note_id < pre.notes@[bki].notes@.len(),
        spec_track_outcome(
            pre.notes@[bki].notes@[
                pre.judge_fields@[k].info.judge_tracks@[done].note_id as int
            ].judge_type,
            pre.notes@[bki].notes@[
                pre.judge_fields@[k].info.judge_tracks@[done].note_id as int
            ].judge_time as int,
            pre.judge_fields@[k].info.judge_tracks@[done],
            clicks,
            t,
        ) == Option::Some(g),
        grade_recorded(
            pre,
            cur,
            pre.notes@[bki].notes@[
                pre.judge_fields@[k].info.judge_tracks@[done].note_id as int
            ].note_id,
            g,
        ),
        forall|tj: int|
            0 <= tj < cur.judge_fields@[k].info.judge_tracks@.len()
                ==> (#[trigger] cur.judge_fields@[k].info.judge_tracks@[tj]).note_id
                != pre.judge_fields@[k].info.judge_tracks@[done].note_id,
    ensures
        phase_a_done(pre, cur, k, bki, clicks, t, done + 1),
{
}

/// Settling one more track that no pointer resolved.
proof fn lemma_phase_a_extend_none(
    pre: PlayInfo,
    cur: PlayInfo,
    k: int,
    bki: int,
    clicks: Seq<Click>,
    t: int,
    done: int,
)
    requires
        phase_a_done(pre, cur, k, bki, clicks, t, done),
        0 <= k < pre.judge_fields@.len(),
        0 <= bki < pre.notes@.len(),
        0 <= k < cur.judge_fields@.len(),
        0 <= done < pre.judge_fields@[k].info.judge_tracks@.len(),
        pre.judge_fields@[k].info.judge_tracks@[done].note_id < pre.notes@[bki].notes@.len()
            ==> spec_track_outcome(
            pre.notes@[bki].notes@[
                pre.judge_fields@[k].info.judge_tracks@[done].note_id as int
            ].judge_type,
            pre.notes@[bki].notes@[
                pre.judge_fields@[k].info.judge_tracks@[done].note_id as int
            ].judge_time as int,
            pre.judge_fields@[k].info.judge_tracks@[done],
            clicks,
            t,
        ) == Option::<Judge>::None,
        exists|tj: int|
            0 <= tj < cur.judge_fields@[k].info.judge_tracks@.len()
                && #[trigger] cur.judge_fields@[k].info.judge_tracks@[tj]
                == pre.judge_fields@[k].info.judge_tracks@[done],
    ensures
        phase_a_done(pre, cur, k, bki, clicks, t, done + 1),
{
}

/// Settled notes stay settled across a step that keeps the settled
/// part of the bucket, keeps or extends the slot's tracks, and only
/// grows the judged record.
proof fn lemma_notes_done_step(
    pre: PlayInfo,
    cur1: PlayInfo,
    cur2: PlayInfo,
    k: int,
    bki: int,
    clicks: Seq<Click>,
    t: int,
    upto: int,
)
    requires
        notes_done(pre, cur1, k, bki, clicks, t, upto),
        0 <= k < pre.judge_fields@.len(),
        0 <= bki < pre.notes@.len(),
        0 <= k < cur1.judge_fields@.len(),
        0 <= k < cur2.judge_fields@.len(),
        0 <= bki < cur1.notes@.len(),
        0 <= bki < cur2.notes@.len(),
        cur1.judged_note_id@.is_prefix_of(cur2.judged_note_id@),
        cur1.judge_vec@.is_prefix_of(cur2.judge_vec@),
        cur1.judged_note_id@.len() == cur1.judge_vec@.len(),
        pre.judge_vec@.len() <= cur1.judge_vec@.len(),
        cur1.judge_fields@[k].info.judge_tracks@.is_prefix_of(
            cur2.judge_fields@[k].info.judge_tracks@,
        ),
        forall|i: int|
            0 <= i < upto && i < cur1.notes@[bki].handled@.len()
                ==> cur1.notes@[bki].handled@[i] == cur2.notes@[bki].handled@[i],
        cur1.notes@[bki].handled@.len() == cur2.notes@[bki].handled@.len(),
        cur1.notes@[bki].handled@.len() == pre.notes@[bki].notes@.len(),
    ensures
        notes_done(pre, cur2, k, bki, clicks, t, upto),
{
    let bucket = pre.notes@[bki];
    let inner_t = crate::chart::spec_field_inner_at(pre.judge_fields@[k].field, t);
    let c1 = cur1.judge_fields@[k].info.judge_tracks@;
    let c2 = cur2.judge_fields@[k].info.judge_tracks@;
    assert(c1 =~= c2.subrange(0, c1.len() as int));
    assert forall|i: int|
        #![trigger bucket.notes@[i]]
        0 <= i < upto && i < bucket.notes@.len() && !bucket.handled@[i] implies {
        let note = bucket.notes@[i];
        let delta = t - note.judge_time;
        if delta > crate::judge::FADE_WINDOW_MS {
            &&& cur2.notes@[bki].handled@[i]
            &&& grade_recorded(pre, cur2, note.note_id, Judge::Miss)
        } else if delta >= -crate::judge::FADE_WINDOW_MS {
            match spec_note_outcome(note, inner_t, clicks, t) {
                Option::Some((c, crate::judge::NoteAction::Grade(g))) => {
                    &&& cur2.notes@[bki].handled@[i]
                    &&& grade_recorded(pre, cur2, note.note_id, g)
                },
                Option::Some((c, crate::judge::NoteAction::OpenTrack)) => exists|tj: int|
                    0 <= tj < c2.len() && (#[trigger] c2[tj]).note_id == i && c2[tj].linked_click
                        == c.id && c2[tj].start_time == t && c2[tj].last_position
                        == crate::judge::spec_clamp_point(c.position),
                Option::None => !cur2.notes@[bki].handled@[i],
            }
        } else {
            !cur2.notes@[bki].handled@[i]
        }
    } by {
        let note = bucket.notes@[i];
        let delta = t - note.judge_time;
        assert(cur1.notes@[bki].handled@[i] == cur2.notes@[bki].handled@[i]);
        if delta > crate::judge::FADE_WINDOW_MS {
            lemma_grade_recorded_lift(pre, pre, cur1, cur2, note.note_id, Judge::Miss);
        } else if delta >= -crate::judge::FADE_WINDOW_MS {
            match spec_note_outcome(note, inner_t, clicks, t) {
                Option::Some((c, crate::judge::NoteAction::Grade(g))) => {
                    lemma_grade_recorded_lift(pre, pre, cur1, cur2, note.note_id, g);
                },
                Option::Some((c, crate::judge::NoteAction::OpenTrack)) => {
                    let tj = choose|tj: int|
                        0 <= tj < c1.len() && (#[trigger] c1[tj]).note_id == i
                            && c1[tj].linked_click == c.id && c1[tj].start_time == t
                            && c1[tj].last_position == crate::judge::spec_clamp_point(c.position);
                    assert(c2[tj] == c1[tj]);
                },
                Option::None => {},
            }
        }
    }
}

/// Settling one more pending note.
proof fn lemma_notes_done_extend(
    pre: PlayInfo,
    cur: PlayInfo,
    k: int,
    bki: int,
    clicks: Seq<Click>,
    t: int,
    upto: int,
)
    requires
        notes_done(pre, cur, k, bki, clicks, t, upto),
        0 <= k < pre.judge_fields@.len(),
        0 <= bki < pre.notes@.len(),
        0 <= bki < cur.notes@.len(),
        0 <= k < cur.judge_fields@.len(),
        upto < pre.notes@[bki].notes@.len() && !pre.notes@[bki].handled@[upto] ==> {
            let note = pre.notes@[bki].notes@[upto];
            let inner_t = crate::chart::spec_field_inner_at(pre.judge_fields@[k].field, t);
            let cur_tracks = cur.judge_fields@[k].info.judge_tracks@;
            let delta = t - note.judge_time;
            if delta > crate::judge::FADE_WINDOW_MS {
                &&& cur.notes@[bki].handled@[upto]
                &&& grade_recorded(pre, cur, note.note_id, Judge::Miss)
            } else if delta >= -crate::judge::FADE_WINDOW_MS {
                match spec_note_outcome(note, inner_t, clicks, t) {
                    Option::Some((c, crate::judge::NoteAction::Grade(g))) => {
                        &&& cur.notes@[bki].handled@[upto]
                        &&& grade_recorded(pre, cur, note.note_id, g)
                    },
                    Option::Some((c, crate::judge::NoteAction::OpenTrack)) => exists|tj: int|
                        0 <= tj < cur_tracks.len() && (#[trigger] cur_tracks[tj]).note_id == upto
                            && cur_tracks[tj].linked_click == c.id && cur_tracks[tj].start_time
                            == t && cur_tracks[tj].last_position
                            == crate::judge::spec_clamp_point(c.position),
                    Option::None => !cur.notes@[bki].handled@[upto],
                }
            } else {
                !cur.notes@[bki].handled@[upto]
            }
        },
    ensures
        notes_done(pre, cur, k, bki, clicks, t, upto + 1),
{
}

/// The per-field relation is insensitive to an earlier start of the
/// judged record, as long as the slot and the bucket read the same.
proof fn lemma_field_rel_shift_pre(pre: PlayInfo, mid: PlayInfo, post: PlayInfo, k: int, b: int,
    clicks: Seq<Click>, t: int)
    requires
        normal_field_rel(mid, post, k, b, clicks, t),
        0 <= k < pre.judge_fields@.len(),
        0 <= b < pre.notes@.len(),
        0 <= k < mid.judge_fields@.len(),
        0 <= b < mid.notes@.len(),
        mid.judge_fields@[k] == pre.judge_fields@[k],
        mid.notes@[b] == pre.notes@[b],
        pre.judge_vec@.len() <= mid.judge_vec@.len(),
    ensures
        normal_field_rel(pre, post, k, b, clicks, t),
{
    assert forall|id: u64, g: Judge| grade_recorded(mid, post, id, g) implies #[trigger]
        grade_recorded(pre, post, id, g) by {
        let j = choose|j: int|
            mid.judge_vec@.len() <= j < post.judge_vec@.len() && #[trigger] post.judged_note_id@[
                j
            ] == id && post.judge_vec@[j] == g;
        assert(pre.judge_vec@.len() <= j < post.judge_vec@.len() && post.judged_note_id@[j]
            == id && post.judge_vec@[j] == g);
    }
}

/// The per-field relation survives later steps that leave the slot and
/// the bucket alone and only grow the judged record.
proof fn lemma_field_rel_frame(pre: PlayInfo, head: PlayInfo, post: PlayInfo, k: int, b: int,
    clicks: Seq<Click>, t: int)
    requires
        normal_field_rel(pre, head, k, b, clicks, t),
        0 <= k < pre.judge_fields@.len(),
        0 <= b < pre.notes@.len(),
        0 <= k < head.judge_fields@.len(),
        0 <= b < head.notes@.len(),
        0 <= k < post.judge_fields@.len(),
        0 <= b < post.notes@.len(),
        post.judge_fields@[k] == head.judge_fields@[k],
        post.notes@[b] == head.notes@[b],
        head.judged_note_id@.is_prefix_of(post.judged_note_id@),
        head.judge_vec@.is_prefix_of(post.judge_vec@),
        head.judged_note_id@.len() == head.judge_vec@.len(),
        pre.judge_vec@.len() <= head.judge_vec@.len(),
    ensures
        normal_field_rel(pre, post, k, b, clicks, t),
{
    assert forall|id: u64, g: Judge| grade_recorded(pre, head, id, g) implies #[trigger]
        grade_recorded(pre, post, id, g) by {
        lemma_grade_recorded_lift(pre, pre, head, post, id, g);
    }
}

/// What a normal-mode judgment call does to every judge field the
/// session carries that has a bucket of notes.
pub open spec fn normal_judge_rel(pre: PlayInfo, post: PlayInfo, event: JudgeEvent, t: int)
    -> bool {
    forall|k: int, b: int|
        0 <= k < pre.judge_fields@.len() && 0 <= b < pre.notes@.len() && (
        #[trigger] pre.judge_fields@[k]).id == (#[trigger] pre.notes@[b]).field_id
            ==> normal_field_rel(pre, post, k, b, event.clicks@, t)
}

/// No note is left pending forever: every note of a field the session
/// still carries that is already more than the miss window overdue ends
/// the judgment call handled — graded (a forced Miss at the latest), or
/// already resolved earlier.
pub open spec fn overdue_resolved(pre: PlayInfo, post: PlayInfo, t: int) -> bool {
    forall|k: int, i: int|
        #![trigger post.notes@[k].handled@[i]]
        0 <= k < pre.notes@.len() && 0 <= i < pre.notes@[k].handled@.len() && has_slot(
            pre,
            pre.notes@[k].field_id,
        ) && pre.notes@[k].notes@[i].judge_time + crate::judge::FADE_WINDOW_MS < t
            ==> post.notes@[k].handled@[i]
}

/// Whether some judge field of the session carries this id.
pub open spec fn has_slot(s: PlayInfo, field_id: u64) -> bool {
    exists|k: int| 0 <= k < s.judge_fields@.len() && (#[trigger] s.judge_fields@[k]).id
        == field_id
}

/// Decide whether an id occurs in a list of ids.
fn contains_id(ids: &Vec<u64>, id: u64) -> (found: bool)
    ensures
        found == ids@.contains(id),
{
    let mut j: usize = 0;
    while j < ids.len()
        invariant
            j <= ids@.len(),
            forall|q: int| 0 <= q < j ==> ids@[q] != id,
        decreases ids@.len() - j,
    {
        if ids[j] == id {
            return true;
        }
        j += 1;
    }
    false
}

/// Decide whether every id of `ids` is in the judged record.
fn all_ids_judged(judged: &Vec<u64>, ids: &Vec<u64>) -> (r: bool)
    ensures
        r == forall|j: int| 0 <= j < ids@.len() ==> judged@.contains(#[trigger] ids@[j]),
{
    let mut j: usize = 0;
    while j < ids.len()
        invariant
            j <= ids@.len(),
            forall|q: int| 0 <= q < j ==> judged@.contains(#[trigger] ids@[q]),
        decreases ids@.len() - j,
    {
        if !contains_id(judged, ids[j]) {
            return false;
        }
        j += 1;
    }
    true
}

impl PlayInfo {
    /// Advance the session by one tick at timer instant `now_ms`.
    ///
    /// A finished session is terminal: the timer is paused, the audio
    /// collaborator is asked to pause, and nothing else is mutated. An
    /// unfinished session computes the effective playback time (the
    /// timer reading less the three-second lead-in, plus the configured
    /// offsets), starts the music at most once per session when that
    /// time crosses zero and starting is requested, finishes and clears
    /// itself once the chart's sustain is exceeded, and otherwise admits
    /// every newly due shape into the render queue, evicts the shapes
    /// whose window has ended or whose linked notes are all judged,
    /// drops expired judge fields, fires every due chart event once, and
    /// — in auto mode — invokes the judgment engine with no pointer
    /// input. Animated properties are not stored per tick: the renderer
    /// samples each rendered shape's tracks at the current time with
    /// [`crate::chart::AnimationTrack::value_at`].
    #[verifier::rlimit(60)]
    pub fn frame(&mut self, timer: &mut crate::timer::Timer, now_ms: i64, global_offset_ms: i64,
        will_play_music: bool, show_click_effect: bool) -> (r: AudioAction)
        requires
            old(self).wf(),
            old(timer).wf(),
            -crate::timer::TIMER_NOW_MAX_MS <= now_ms <= crate::timer::TIMER_NOW_MAX_MS,
            -1_000_000_000_000 <= global_offset_ms <= 1_000_000_000_000,
        ensures
            final(self).wf(),
            old(self).is_finished ==> {
                &&& *final(self) == *old(self)
                &&& r == AudioAction::Pause
                &&& final(timer).wf()
                &&& !final(timer).spec_is_started()
            },
            !old(self).is_finished ==> {
                let time = old(timer).spec_read(now_ms as int);
                let play_time = time + old(self).offset + global_offset_ms - 3000;
                &&& *final(timer) == *old(timer)
                &&& ((!old(self).is_track_played && play_time > 0 && will_play_music) ==> r
                    == AudioAction::Play(play_time as i64))
                &&& (!(!old(self).is_track_played && play_time > 0 && will_play_music) ==> r
                    == AudioAction::Keep)
                &&& if old(self).play_mode is Auto {
                    exists|mid: PlayInfo|
                        {
                            &&& #[trigger] scheduler_rel(
                                *old(self),
                                mid,
                                time,
                                global_offset_ms as int,
                                will_play_music,
                            )
                            &&& mid.wf()
                            &&& judge_rel(mid, *final(self))
                            &&& (time - 3000 >= 0 ==> auto_judge_rel(
                                mid,
                                *final(self),
                                time - 3000,
                            ))
                            &&& (time - 3000 < 0 ==> *final(self) == mid)
                            &&& (!show_click_effect ==> final(self).render_queue@
                                == mid.render_queue@)
                        }
                } else {
                    scheduler_rel(
                        *old(self),
                        *final(self),
                        time,
                        global_offset_ms as int,
                        will_play_music,
                    )
                }
            },
    {
        let time = timer.read(now_ms);
        if self.is_finished {
            timer.pause(now_ms);
            return AudioAction::Pause;
        }
        let play_time = time + self.offset + global_offset_ms - 3000;
        let mut action = AudioAction::Keep;
        if !self.is_track_played && play_time > 0 && will_play_music {
            self.is_track_played = true;
            action = AudioAction::Play(play_time);
        }
        if time > 3000 {
            let t = time - 3000;
            if t > self.sustain_time {
                proof {
                    crate::session::lemma_slots_tracks_nonneg(self.judge_fields@);
                    crate::session::lemma_buckets_len_nonneg(self.notes@);
                }
                self.is_finished = true;
                self.notes = Vec::new();
                self.judge_fields = Vec::new();
                self.shapes = Vec::new();
                self.click_effects = Vec::new();
                self.render_queue = Vec::new();
                self.current_render = 0;
            } else {
                let ghost pre_adm = *self;
                while self.current_render < self.shapes.len()
                    && self.shapes[self.current_render].start_time <= t
                    invariant
                        self.wf(),
                        pre_adm.wf(),
                        pre_adm.current_render <= self.current_render
                            <= self.shapes@.len(),
                        admitted_to(self.shapes@, self.current_render as int, t as int)
                            == admitted_to(
                            pre_adm.shapes@,
                            pre_adm.current_render as int,
                            t as int,
                        ),
                        self.render_queue@.len() == pre_adm.render_queue@.len()
                            + self.current_render - pre_adm.current_render,
                        self.render_queue@.take(pre_adm.render_queue@.len() as int)
                            == pre_adm.render_queue@,
                        forall|j: int|
                            pre_adm.current_render <= j < self.current_render
                                ==> crate::chart::shape_like(
                                #[trigger] self.render_queue@[
                                    pre_adm.render_queue@.len() + j
                                        - pre_adm.current_render
                                ],
                                self.shapes@[j],
                            ),
                        *self == (PlayInfo {
                            render_queue: self.render_queue,
                            current_render: self.current_render,
                            ..pre_adm
                        }),
                    decreases self.shapes@.len() - self.current_render,
                {
                    let s = self.shapes[self.current_render].duplicate();
                    proof {
                        crate::session::lemma_chart_shape_render_wf(
                            self.shapes@[self.current_render as int],
                        );
                        crate::session::lemma_shape_like_render_wf(
                            s,
                            self.shapes@[self.current_render as int],
                        );
                        crate::chart::lemma_shape_like_wf(
                            s,
                            self.shapes@[self.current_render as int],
                        );
                    }
                    self.render_queue.push(s);
                    self.current_render = self.current_render + 1;
                    proof {
                        assert(self.render_queue@.take(pre_adm.render_queue@.len() as int)
                            =~= pre_adm.render_queue@);
                    }
                }
                proof {
                    assert(admitted_to(self.shapes@, self.current_render as int, t as int)
                        == self.current_render as int);
                }
                let ghost combined = self.render_queue@;
                let ghost adm_state = *self;
                let mut kept: Vec<Shape> = Vec::new();
                proof {
                    assert(combined.take(0) =~= Seq::<Shape>::empty());
                    assert(combined.skip(0) =~= combined);
                }
                while self.render_queue.len() > 0
                    invariant
                        self.wf(),
                        0 <= t <= 3_000_000_000_000_000,
                        self.render_queue@ == combined.skip(
                            combined.len() - self.render_queue@.len(),
                        ),
                        self.render_queue@.len() <= combined.len(),
                        kept@ == kept_shapes(
                            self.judged_note_id@,
                            combined.take(combined.len() - self.render_queue@.len()),
                            t as int,
                        ),
                        forall|j: int| 0 <= j < kept@.len()
                            ==> crate::session::shape_render_wf(#[trigger] kept@[j]),
                        forall|j: int| 0 <= j < combined.len()
                            ==> crate::session::shape_render_wf(#[trigger] combined[j]),
                        *self == (PlayInfo { render_queue: self.render_queue, ..adm_state }),
                    decreases self.render_queue@.len(),
                {
                    let ghost qi = combined.len() - self.render_queue@.len();
                    let s = self.render_queue.remove(0);
                    proof {
                        assert(s == combined[qi]);
                        assert(self.render_queue@ =~= combined.skip(qi + 1));
                        lemma_kept_shapes_take(self.judged_note_id@, combined, t as int, qi);
                        assert(combined.take(qi + 1) =~= combined.take(qi).push(combined[qi]));
                        assert(kept_shapes(self.judged_note_id@, combined.take(qi + 1), t as int)
                            == if shape_visible(self.judged_note_id@, combined[qi], t as int) {
                            kept_shapes(self.judged_note_id@, combined.take(qi), t as int).push(
                                combined[qi],
                            )
                        } else {
                            kept_shapes(self.judged_note_id@, combined.take(qi), t as int)
                        });
                    }
                    let within = s.start_time <= t && s.start_time + s.sustain_time >= t;
                    let keep: bool = if !within {
                        false
                    } else {
                        match &s.linked_note_id {
                            Option::None => true,
                            Option::Some(ids) => !(ids.len() > 0 && all_ids_judged(
                                &self.judged_note_id,
                                ids,
                            )),
                        }
                    };
                    proof {
                        assert(keep == shape_visible(self.judged_note_id@, combined[qi], t as int));
                    }
                    if keep {
                        kept.push(s);
                    }
                }
                proof {
                    assert(combined.take(combined.len() - self.render_queue@.len())
                        =~= combined);
                }
                self.render_queue = kept;
                let ghost evict_state = *self;
                let ghost slots0 = self.judge_fields@;
                let mut keptf: Vec<FieldSlot> = Vec::new();
                proof {
                    assert(slots0.take(0) =~= Seq::<FieldSlot>::empty());
                    assert(slots0.skip(0) =~= slots0);
                }
                while self.judge_fields.len() > 0
                    invariant
                        evict_state.wf(),
                        slots0 == evict_state.judge_fields@,
                        self.judge_fields@ == slots0.skip(
                            slots0.len() - self.judge_fields@.len(),
                        ),
                        self.judge_fields@.len() <= slots0.len(),
                        keptf@ == alive_slots(
                            slots0.take(slots0.len() - self.judge_fields@.len()),
                            t as int,
                        ),
                        *self == (PlayInfo { judge_fields: self.judge_fields, ..evict_state }),
                    decreases self.judge_fields@.len(),
                {
                    let ghost fi = slots0.len() - self.judge_fields@.len();
                    let f = self.judge_fields.remove(0);
                    proof {
                        assert(f == slots0[fi]);
                        assert(self.judge_fields@ =~= slots0.skip(fi + 1));
                        lemma_alive_slots_take(slots0, t as int, fi);
                        assert(slots0.take(fi + 1) =~= slots0.take(fi).push(slots0[fi]));
                        assert(evict_state.judge_fields@[fi].field.wf());
                    }
                    let alive = f.field.start_time + f.field.sustain_time >= t;
                    if alive {
                        keptf.push(f);
                    }
                }
                proof {
                    assert(slots0.take(slots0.len() - self.judge_fields@.len()) =~= slots0);
                }
                self.judge_fields = keptf;
                proof {
                    self.lemma_fields_removed_wf(evict_state, t as int);
                }
                let ghost fields_state = *self;
                while self.current_event < self.events.len()
                    && self.events[self.current_event].time <= t
                    invariant
                        fields_state.wf(),
                        fields_state.current_event <= self.current_event
                            <= self.events@.len(),
                        events_fired_to(self.events@, self.current_event as int, t as int)
                            == events_fired_to(
                            fields_state.events@,
                            fields_state.current_event as int,
                            t as int,
                        ),
                        self.current_shader == shader_after(
                            fields_state.events@,
                            fields_state.current_event as int,
                            self.current_event as int,
                            fields_state.shaders@,
                            fields_state.current_shader,
                        ),
                        *self == (PlayInfo {
                            current_event: self.current_event,
                            current_shader: self.current_shader,
                            ..fields_state
                        }),
                    decreases self.events@.len() - self.current_event,
                {
                    let e = self.events[self.current_event];
                    proof {
                        lemma_shader_after_snoc(
                            fields_state.events@,
                            fields_state.current_event as int,
                            self.current_event as int,
                            fields_state.shaders@,
                            fields_state.current_shader,
                        );
                    }
                    match e.inner {
                        crate::chart::ChartEventInner::ChangeShader(target) => {
                            self.current_shader = match target {
                                Option::Some(id) => if contains_id(&self.shaders, id) {
                                    Some(id)
                                } else {
                                    None
                                },
                                Option::None => None,
                            };
                        },
                        _ => {},
                    }
                    self.current_event = self.current_event + 1;
                }
                proof {
                    assert(events_fired_to(self.events@, self.current_event as int, t as int)
                        == self.current_event as int);
                    let pre = *old(self);
                    let t0: int = t as int;
                    let new_cr = admitted_to(pre.shapes@, pre.current_render as int, t0);
                    lemma_admitted_to_bounds(pre.shapes@, pre.current_render as int, t0);
                    assert(self.current_render == new_cr);
                    let srcs = pre.shapes@.subrange(pre.current_render as int, new_cr);
                    lemma_shapes_like_refl(pre.render_queue@);
                    assert(crate::chart::shapes_like(combined, pre.render_queue@ + srcs)) by {
                        assert forall|j: int| 0 <= j < combined.len() implies
                            crate::chart::shape_like(
                                #[trigger] combined[j],
                                (pre.render_queue@ + srcs)[j],
                            ) by {
                            if j < pre.render_queue@.len() {
                                assert(combined[j] == combined.take(
                                    pre.render_queue@.len() as int,
                                )[j]);
                                assert(combined[j] == pre.render_queue@[j]);
                                assert(crate::chart::shape_like(
                                    pre.render_queue@[j],
                                    pre.render_queue@[j],
                                ));
                            } else {
                                let jj = pre.current_render + (j - pre.render_queue@.len());
                                assert(crate::chart::shape_like(
                                    combined[
                                        pre_adm.render_queue@.len() + jj
                                            - pre_adm.current_render
                                    ],
                                    pre_adm.shapes@[jj],
                                ));
                                assert(crate::chart::shape_like(combined[j], pre.shapes@[jj]));
                                assert((pre.render_queue@ + srcs)[j] == srcs[j
                                    - pre.render_queue@.len()]);
                                assert(srcs[j - pre.render_queue@.len()] == pre.shapes@[jj]);
                            }
                        }
                    }
                    lemma_kept_shapes_like(
                        pre.judged_note_id@,
                        combined,
                        pre.render_queue@ + srcs,
                        t0,
                    );
                }
            }
        }
        let ghost mid = *self;
        proof {
            assert(scheduler_rel(
                *old(self),
                mid,
                old(timer).spec_read(now_ms as int),
                global_offset_ms as int,
                will_play_music,
            ));
        }
        let is_auto = matches!(self.play_mode, crate::session::PlayMode::Auto);
        if is_auto {
            let judge_time = time - 3000;
            let res = self.judge(&JudgeEvent::empty(), judge_time, show_click_effect);
            proof {
                assert(res is Ok);
            }
        }
        action
    }

    /// Removing the expired judge fields preserves the session
    /// invariant.
    proof fn lemma_fields_removed_wf(&self, pre: PlayInfo, t: int)
        requires
            pre.wf(),
            *self == (PlayInfo { judge_fields: self.judge_fields, ..pre }),
            self.judge_fields@ == alive_slots(pre.judge_fields@, t),
        ensures
            self.wf(),
    {
        lemma_alive_slots_distinct(pre.judge_fields@, t);
        lemma_alive_slots_tracks(pre.judge_fields@, t);
        crate::session::lemma_buckets_len_nonneg(self.notes@);
        assert forall|k: int| 0 <= k < self.judge_fields@.len() implies {
            &&& (#[trigger] self.judge_fields@[k]).field.wf()
            &&& forall|k2: int|
                0 <= k2 < self.notes@.len() && self.judge_fields@[k].id == (
                #[trigger] self.notes@[k2]).field_id ==> slot_bucket_ok(
                    self.judge_fields@[k],
                    self.notes@[k2],
                )
            &&& forall|k2: int, tr: int|
                0 <= k2 < self.notes@.len() && self.judge_fields@[k].id == (
                #[trigger] self.notes@[k2]).field_id && 0 <= tr < self.judge_fields@[
                    k
                ].info.judge_tracks@.len() && (#[trigger] self.judge_fields@[
                    k
                ].info.judge_tracks@[tr]).note_id < self.notes@[k2].notes@.len()
                    ==> !self.id_judged(
                    self.notes@[k2].notes@[
                        self.judge_fields@[k].info.judge_tracks@[tr].note_id as int
                    ].note_id,
                )
        } by {
            lemma_alive_slots_contains(pre.judge_fields@, t, k);
            let j = choose|j: int|
                0 <= j < pre.judge_fields@.len() && self.judge_fields@[k]
                    == #[trigger] pre.judge_fields@[j];
            assert(pre.judge_fields@[j].field.wf());
            assert forall|k2: int|
                0 <= k2 < self.notes@.len() && self.judge_fields@[k].id == (
            #[trigger] self.notes@[k2]).field_id implies slot_bucket_ok(
                self.judge_fields@[k],
                self.notes@[k2],
            ) by {
                assert(slot_bucket_ok(pre.judge_fields@[j], pre.notes@[k2]));
            }
            assert forall|k2: int, tr: int|
                0 <= k2 < self.notes@.len() && self.judge_fields@[k].id == (
            #[trigger] self.notes@[k2]).field_id && 0 <= tr < self.judge_fields@[
                k
            ].info.judge_tracks@.len() && (#[trigger] self.judge_fields@[
                k
            ].info.judge_tracks@[tr]).note_id < self.notes@[k2].notes@.len() implies !self
                .id_judged(
                self.notes@[k2].notes@[
                    self.judge_fields@[k].info.judge_tracks@[tr].note_id as int
                ].note_id,
            ) by {
                assert(!pre.id_judged(
                    pre.notes@[k2].notes@[
                        pre.judge_fields@[j].info.judge_tracks@[tr].note_id as int
                    ].note_id,
                ));
            }
        }
    }
}

} // verus!
