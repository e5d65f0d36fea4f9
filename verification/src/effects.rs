//! Click-effect instantiation: turning a graded outcome into positioned,
//! retimed transient shapes.
//!
//! The chart's per-tier template is cloned; every clone is renamed to the
//! judged note's id (so linked-shape eviction can find it), shifted in
//! time by the judgment instant, and translated by the anchor position —
//! both the shape's own position and every position-valued animation
//! track. Translations saturate at the render-queue coordinate bound, so
//! no input can overflow.

use vstd::prelude::*;
use crate::chart::AnimateTarget;
use crate::chart::ClickEffect;
use crate::chart::Note;
use crate::chart::Shape;
use crate::chart::Vec2;
use crate::score::Judge;
use crate::session::shape_render_wf;
use crate::session::RENDER_COORD_MAX;

verus! {

/// Instants at which effects are spawned stay within this bound.
pub const EFFECT_TIME_MAX_MS: i64 = 4_000_000_000_000_000;

/// A sum clamped into the render-queue coordinate range.
pub open spec fn spec_sat_add_coord(a: int, b: int) -> int {
    if a + b > RENDER_COORD_MAX {
        RENDER_COORD_MAX as int
    } else if a + b < -RENDER_COORD_MAX {
        -RENDER_COORD_MAX as int
    } else {
        a + b
    }
}

/// Add two coordinates, clamping into the render-queue range.
fn sat_add_coord(a: i64, b: i64) -> (r: i64)
    requires
        -RENDER_COORD_MAX <= a <= RENDER_COORD_MAX,
        -RENDER_COORD_MAX <= b <= RENDER_COORD_MAX,
    ensures
        r == spec_sat_add_coord(a as int, b as int),
        -RENDER_COORD_MAX <= r <= RENDER_COORD_MAX,
{
    let s = a + b;
    if s > RENDER_COORD_MAX {
        RENDER_COORD_MAX
    } else if s < -RENDER_COORD_MAX {
        -RENDER_COORD_MAX
    } else {
        s
    }
}

impl ClickEffect {
    /// The template tier a grade selects.
    pub open spec fn spec_tier(self, judge: Judge) -> Seq<Shape> {
        match judge {
            Judge::Immaculate(_) => self.immaculate_effect@,
            Judge::Extra => self.extra_effect@,
            Judge::Normal => self.normal_effect@,
            Judge::Fade => self.fade_effect@,
            Judge::Miss => self.miss_effect@,
        }
    }

    /// Instantiate the template tier of `judge` at judgment instant
    /// `time_ms` and anchor `position`: each clone is renamed to the
    /// judged note's id, its start time and its tracks' start times are
    /// shifted by the instant, and its position and every
    /// position-valued track are translated by the anchor.
    pub fn get_shape(&self, time_ms: i64, judge: &Judge, position: Vec2, note_id: u64) -> (r:
        Vec<Shape>)
        requires
            self.wf(),
            -EFFECT_TIME_MAX_MS <= time_ms <= EFFECT_TIME_MAX_MS,
            -RENDER_COORD_MAX <= position.x <= RENDER_COORD_MAX,
            -RENDER_COORD_MAX <= position.y <= RENDER_COORD_MAX,
        ensures
            r@.len() == self.spec_tier(*judge).len(),
            forall|i: int| 0 <= i < r@.len() ==> spec_shape_retargeted(
                self.spec_tier(*judge)[i],
                #[trigger] r@[i],
                time_ms as int,
                position,
                note_id,
            ),
            forall|i: int| 0 <= i < r@.len() ==> shape_render_wf(#[trigger] r@[i]),
    {
        let tier: &Vec<Shape> = match judge {
            Judge::Immaculate(_) => &self.immaculate_effect,
            Judge::Extra => &self.extra_effect,
            Judge::Normal => &self.normal_effect,
            Judge::Fade => &self.fade_effect,
            Judge::Miss => &self.miss_effect,
        };
        let mut shapes: Vec<Shape> = Vec::new();
        let mut i: usize = 0;
        while i < tier.len()
            invariant
                i <= tier@.len(),
                tier@ == self.spec_tier(*judge),
                self.wf(),
                forall|j: int| 0 <= j < tier@.len() ==> (#[trigger] tier@[j]).wf(),
                -EFFECT_TIME_MAX_MS <= time_ms <= EFFECT_TIME_MAX_MS,
                -RENDER_COORD_MAX <= position.x <= RENDER_COORD_MAX,
                -RENDER_COORD_MAX <= position.y <= RENDER_COORD_MAX,
                shapes@.len() == i,
                forall|j: int| 0 <= j < i ==> spec_shape_retargeted(
                    tier@[j],
                    #[trigger] shapes@[j],
                    time_ms as int,
                    position,
                    note_id,
                ),
                forall|j: int| 0 <= j < i ==> shape_render_wf(#[trigger] shapes@[j]),
            decreases tier@.len() - i,
        {
            let tpl = &tier[i];
            let shape = retarget_shape(tpl, time_ms, position, note_id);
            shapes.push(shape);
            i += 1;
        }
        shapes
    }
}

/// How an instantiated effect shape relates to its template: renamed,
/// shifted in time, translated along the position-valued tracks.
pub open spec fn spec_shape_retargeted(
    tpl: Shape,
    out: Shape,
    time_ms: int,
    position: Vec2,
    note_id: u64,
) -> bool {
    &&& out.id == note_id
    &&& out.start_time == tpl.start_time + time_ms
    &&& out.sustain_time == tpl.sustain_time
    &&& (match (tpl.linked_note_id, out.linked_note_id) {
        (Option::None, Option::None) => true,
        (Option::Some(a), Option::Some(b)) => a@ == b@,
        _ => false,
    })
    &&& out.position.x == spec_sat_add_coord(tpl.position.x as int, position.x as int)
    &&& out.position.y == spec_sat_add_coord(tpl.position.y as int, position.y as int)
    &&& out.animation@.len() == tpl.animation@.len()
    &&& forall|j: int| 0 <= j < tpl.animation@.len() ==> {
        let tt = #[trigger] tpl.animation@[j];
        let ot = out.animation@[j];
        let delta: int = match tt.target {
            AnimateTarget::PositionX => position.x as int,
            AnimateTarget::PositionY => position.y as int,
            _ => 0,
        };
        &&& ot.target == tt.target
        &&& ot.start_time == tt.start_time + time_ms
        &&& ot.start_value == spec_sat_add_coord(tt.start_value as int, delta)
        &&& ot.linkers@.len() == tt.linkers@.len()
        &&& forall|l: int| 0 <= l < tt.linkers@.len() ==> {
            let tl = #[trigger] tt.linkers@[l];
            let ol = ot.linkers@[l];
            &&& ol.sustain_time == tl.sustain_time
            &&& ol.easing == tl.easing
            &&& ol.end_value == spec_sat_add_coord(tl.end_value as int, delta)
        }
    }
}

/// Instantiate one template shape at the judgment instant and anchor.
fn retarget_shape(tpl: &Shape, time_ms: i64, position: Vec2, note_id: u64) -> (out: Shape)
    requires
        tpl.wf(),
        -EFFECT_TIME_MAX_MS <= time_ms <= EFFECT_TIME_MAX_MS,
        -RENDER_COORD_MAX <= position.x <= RENDER_COORD_MAX,
        -RENDER_COORD_MAX <= position.y <= RENDER_COORD_MAX,
    ensures
        spec_shape_retargeted(*tpl, out, time_ms as int, position, note_id),
        shape_render_wf(out),
{
    let mut animation: Vec<crate::chart::AnimationTrack> = Vec::new();
    let mut j: usize = 0;
    while j < tpl.animation.len()
        invariant
            j <= tpl.animation@.len(),
            tpl.wf(),
            -EFFECT_TIME_MAX_MS <= time_ms <= EFFECT_TIME_MAX_MS,
            -RENDER_COORD_MAX <= position.x <= RENDER_COORD_MAX,
            -RENDER_COORD_MAX <= position.y <= RENDER_COORD_MAX,
            animation@.len() == j,
            forall|q: int| 0 <= q < j ==> {
                let tt = #[trigger] tpl.animation@[q];
                let ot = animation@[q];
                let delta: int = match tt.target {
                    AnimateTarget::PositionX => position.x as int,
                    AnimateTarget::PositionY => position.y as int,
                    _ => 0,
                };
                &&& ot.target == tt.target
                &&& ot.start_time == tt.start_time + time_ms
                &&& ot.start_value == spec_sat_add_coord(tt.start_value as int, delta)
                &&& ot.linkers@.len() == tt.linkers@.len()
                &&& forall|l: int| 0 <= l < tt.linkers@.len() ==> {
                    let tl = #[trigger] tt.linkers@[l];
                    let ol = ot.linkers@[l];
                    &&& ol.sustain_time == tl.sustain_time
                    &&& ol.easing == tl.easing
                    &&& ol.end_value == spec_sat_add_coord(tl.end_value as int, delta)
                }
            },
            forall|q: int| 0 <= q < j ==> {
                let ot = #[trigger] animation@[q];
                &&& -9_000_000_000_000_000 <= ot.start_time <= 9_000_000_000_000_000
                &&& -RENDER_COORD_MAX <= ot.start_value <= RENDER_COORD_MAX
                &&& crate::chart::linkers_total(ot.linkers@) <= crate::chart::CHART_TIME_MAX_MS
                &&& forall|l: int| 0 <= l < ot.linkers@.len() ==> {
                    &&& crate::chart::time_ok((#[trigger] ot.linkers@[l]).sustain_time as int)
                    &&& -RENDER_COORD_MAX <= ot.linkers@[l].end_value <= RENDER_COORD_MAX
                }
            },
        decreases tpl.animation@.len() - j,
    {
        let tt = &tpl.animation[j];
        let delta: i64 = match tt.target {
            AnimateTarget::PositionX => position.x,
            AnimateTarget::PositionY => position.y,
            _ => 0,
        };
        let mut linkers: Vec<crate::chart::Linker> = Vec::new();
        let mut l: usize = 0;
        while l < tt.linkers.len()
            invariant
                l <= tt.linkers@.len(),
                tt.wf(),
                -RENDER_COORD_MAX <= delta <= RENDER_COORD_MAX,
                linkers@.len() == l,
                forall|q: int| 0 <= q < l ==> {
                    let tl = #[trigger] tt.linkers@[q];
                    let ol = linkers@[q];
                    &&& ol.sustain_time == tl.sustain_time
                    &&& ol.easing == tl.easing
                    &&& ol.end_value == spec_sat_add_coord(tl.end_value as int, delta as int)
                },
                forall|q: int| 0 <= q < l ==> {
                    &&& crate::chart::time_ok((#[trigger] linkers@[q]).sustain_time as int)
                    &&& -RENDER_COORD_MAX <= linkers@[q].end_value <= RENDER_COORD_MAX
                },
            decreases tt.linkers@.len() - l,
        {
            let tl = tt.linkers[l];
            linkers.push(
                crate::chart::Linker {
                    end_value: sat_add_coord(tl.end_value, delta),
                    sustain_time: tl.sustain_time,
                    easing: tl.easing,
                },
            );
            l += 1;
        }
        proof {
            lemma_linkers_total_same(tt.linkers@, linkers@);
        }
        animation.push(
            crate::chart::AnimationTrack {
                target: tt.target,
                start_time: tt.start_time + time_ms,
                start_value: sat_add_coord(tt.start_value, delta),
                linkers,
            },
        );
        j += 1;
    }
    let linked: Option<Vec<u64>> = match &tpl.linked_note_id {
        Option::None => None,
        Option::Some(v) => {
            let mut copy: Vec<u64> = Vec::new();
            let mut q: usize = 0;
            while q < v.len()
                invariant
                    q <= v@.len(),
                    copy@ == v@.take(q as int),
                decreases v@.len() - q,
            {
                copy.push(v[q]);
                proof {
                    assert(copy@ =~= v@.take(q as int + 1));
                }
                q += 1;
            }
            proof {
                assert(v@.take(q as int) =~= v@);
            }
            Some(copy)
        },
    };
    Shape {
        id: note_id,
        animation,
        linked_note_id: linked,
        position: Vec2 {
            x: sat_add_coord(tpl.position.x, position.x),
            y: sat_add_coord(tpl.position.y, position.y),
        },
        start_time: tpl.start_time + time_ms,
        sustain_time: tpl.sustain_time,
    }
}

/// Two segment chains with pointwise equal durations have the same
/// total.
proof fn lemma_linkers_total_same(a: Seq<crate::chart::Linker>, b: Seq<crate::chart::Linker>)
    requires
        a.len() == b.len(),
        forall|i: int| 0 <= i < a.len()
            ==> (#[trigger] a[i]).sustain_time == (#[trigger] b[i]).sustain_time,
    ensures
        crate::chart::linkers_total(a) == crate::chart::linkers_total(b),
    decreases a.len(),
{
    if a.len() > 0 {
        lemma_linkers_total_same(a.drop_first(), b.drop_first());
    }
}

/// The anchor at which a note's click effect appears: the explicit
/// position, or — when the note is tied to shapes — the centroid (with
/// truncating division) of the currently rendered shapes carrying those
/// ids, falling back to the explicit position when none is rendered.
pub open spec fn spec_effect_anchor(note: Note, render_queue: Seq<Shape>) -> Vec2 {
    match note.linked_shape {
        Option::None => note.click_effect_position,
        Option::Some(ids) => {
            let found = linked_positions(ids@, render_queue);
            if found.len() == 0 {
                note.click_effect_position
            } else {
                Vec2 {
                    x: crate::judge::spec_div_trunc(sum_x(found), found.len() as int) as i64,
                    y: crate::judge::spec_div_trunc(sum_y(found), found.len() as int) as i64,
                }
            }
        },
    }
}

/// The positions of the rendered shapes whose id is among the linked
/// ids, in queue order.
pub open spec fn linked_positions(ids: Seq<u64>, render_queue: Seq<Shape>) -> Seq<Vec2>
    decreases render_queue.len(),
{
    if render_queue.len() == 0 {
        Seq::empty()
    } else {
        let rest = linked_positions(ids, render_queue.drop_first());
        if ids.contains(render_queue[0].id) {
            seq![render_queue[0].position] + rest
        } else {
            rest
        }
    }
}

/// Sum of the x coordinates of a run of points.
pub open spec fn sum_x(points: Seq<Vec2>) -> int
    decreases points.len(),
{
    if points.len() == 0 {
        0
    } else {
        points[0].x + sum_x(points.drop_first())
    }
}

/// Sum of the y coordinates of a run of points.
pub open spec fn sum_y(points: Seq<Vec2>) -> int
    decreases points.len(),
{
    if points.len() == 0 {
        0
    } else {
        points[0].y + sum_y(points.drop_first())
    }
}

/// Extending the scanned part of the queue by one shape extends the
/// matched positions by that shape's, when its id is linked.
proof fn lemma_linked_positions_take(ids: Seq<u64>, q: Seq<Shape>, i: int)
    requires
        0 <= i < q.len(),
    ensures
        linked_positions(ids, q.take(i + 1)) == if ids.contains(q[i].id) {
            linked_positions(ids, q.take(i)).push(q[i].position)
        } else {
            linked_positions(ids, q.take(i))
        },
    decreases i,
{
    if i == 0 {
        assert(q.take(1).drop_first() =~= q.take(0));
        if ids.contains(q[0].id) {
            assert(seq![q[0].position] + Seq::<Vec2>::empty() =~= linked_positions(
                ids,
                q.take(0),
            ).push(q[0].position));
        }
    } else {
        assert(q.take(i + 1).drop_first() =~= q.drop_first().take(i));
        assert(q.take(i).drop_first() =~= q.drop_first().take(i - 1));
        lemma_linked_positions_take(ids, q.drop_first(), i - 1);
        assert(q.drop_first()[i - 1] == q[i]);
        if ids.contains(q[i].id) && ids.contains(q[0].id) {
            assert(seq![q[0].position] + linked_positions(ids, q.drop_first().take(i - 1)).push(
                q[i].position,
            ) =~= (seq![q[0].position] + linked_positions(ids, q.drop_first().take(i - 1))).push(
                q[i].position,
            ));
        }
    }
}

/// Appending a point adds its coordinates to the sums.
proof fn lemma_sum_push(points: Seq<Vec2>, p: Vec2)
    ensures
        sum_x(points.push(p)) == sum_x(points) + p.x,
        sum_y(points.push(p)) == sum_y(points) + p.y,
    decreases points.len(),
{
    if points.len() == 0 {
        assert(points.push(p).drop_first() =~= points);
    } else {
        assert(points.push(p)[0] == points[0]);
        assert(points.push(p).drop_first() =~= points.drop_first().push(p));
        lemma_sum_push(points.drop_first(), p);
    }
}

/// Decide whether an id is among the linked ids.
fn ids_contain(ids: &Vec<u64>, id: u64) -> (found: bool)
    ensures
        found == ids@.contains(id),
{
    let mut i: usize = 0;
    while i < ids.len()
        invariant
            i <= ids@.len(),
            forall|k: int| 0 <= k < i ==> ids@[k] != id,
        decreases ids@.len() - i,
    {
        if ids[i] == id {
            return true;
        }
        i += 1;
    }
    false
}

/// Resolve the anchor position for a note's click effect.
pub fn effect_anchor(note: &Note, render_queue: &Vec<Shape>) -> (r: Vec2)
    requires
        note.wf(),
        forall|i: int| 0 <= i < render_queue@.len()
            ==> shape_render_wf(#[trigger] render_queue@[i]),
    ensures
        r == spec_effect_anchor(*note, render_queue@),
        -RENDER_COORD_MAX <= r.x <= RENDER_COORD_MAX,
        -RENDER_COORD_MAX <= r.y <= RENDER_COORD_MAX,
{
    match &note.linked_shape {
        Option::None => note.click_effect_position,
        Option::Some(ids) => {
            let mut count: usize = 0;
            let mut sx: i128 = 0;
            let mut sy: i128 = 0;
            let mut i: usize = 0;
            proof {
                assert(render_queue@.take(0) =~= Seq::<Shape>::empty());
            }
            while i < render_queue.len()
                invariant
                    i <= render_queue@.len(),
                    forall|q: int| 0 <= q < render_queue@.len()
                        ==> shape_render_wf(#[trigger] render_queue@[q]),
                    count == linked_positions(ids@, render_queue@.take(i as int)).len(),
                    count <= i,
                    sx == sum_x(linked_positions(ids@, render_queue@.take(i as int))),
                    sy == sum_y(linked_positions(ids@, render_queue@.take(i as int))),
                    -((count as i128) * (RENDER_COORD_MAX as i128)) <= sx,
                    sx <= (count as i128) * (RENDER_COORD_MAX as i128),
                    -((count as i128) * (RENDER_COORD_MAX as i128)) <= sy,
                    sy <= (count as i128) * (RENDER_COORD_MAX as i128),
                decreases render_queue@.len() - i,
            {
                proof {
                    lemma_linked_positions_take(ids@, render_queue@, i as int);
                }
                if ids_contain(ids, render_queue[i].id) {
                    proof {
                        lemma_sum_push(
                            linked_positions(ids@, render_queue@.take(i as int)),
                            render_queue@[i as int].position,
                        );
                        crate::judge::lemma_mul_bound(
                            count as int,
                            RENDER_COORD_MAX as int,
                            0xffff_ffff_ffff_ffff,
                            RENDER_COORD_MAX as int,
                        );
                        assert(shape_render_wf(render_queue@[i as int]));
                    }
                    sx = sx + render_queue[i].position.x as i128;
                    sy = sy + render_queue[i].position.y as i128;
                    count = count + 1;
                }
                i += 1;
            }
            proof {
                assert(render_queue@.take(i as int) =~= render_queue@);
            }
            if count == 0 {
                note.click_effect_position
            } else {
                proof {
                    lemma_centroid_bound(sx as int, count as int);
                    lemma_centroid_bound(sy as int, count as int);
                }
                let ax = div_centroid(sx, count as i128);
                let ay = div_centroid(sy, count as i128);
                Vec2 { x: ax as i64, y: ay as i64 }
            }
        },
    }
}

/// Truncating division of a coordinate sum by a positive match count.
fn div_centroid(a: i128, n: i128) -> (q: i128)
    requires
        n > 0,
        -100_000_000_000_000_000_000_000_000_000_000_000 <= a,
        a <= 100_000_000_000_000_000_000_000_000_000_000_000,
    ensures
        q == crate::judge::spec_div_trunc(a as int, n as int),
{
    if a >= 0 {
        a / n
    } else {
        -((-a) / n)
    }
}

/// A sum of `n` bounded coordinates, divided by `n`, stays bounded.
proof fn lemma_centroid_bound(a: int, n: int)
    requires
        n > 0,
        -n * RENDER_COORD_MAX <= a <= n * RENDER_COORD_MAX,
    ensures
        -RENDER_COORD_MAX <= crate::judge::spec_div_trunc(a, n) <= RENDER_COORD_MAX,
{
    if a >= 0 {
        vstd::arithmetic::div_mod::lemma_div_is_ordered(a, n * RENDER_COORD_MAX, n);
        vstd::arithmetic::div_mod::lemma_div_multiples_vanish(RENDER_COORD_MAX as int, n);
        vstd::arithmetic::mul::lemma_mul_is_commutative(n, RENDER_COORD_MAX as int);
        vstd::arithmetic::div_mod::lemma_div_pos_is_pos(a, n);
    } else {
        vstd::arithmetic::div_mod::lemma_div_is_ordered(-a, n * RENDER_COORD_MAX, n);
        vstd::arithmetic::div_mod::lemma_div_multiples_vanish(RENDER_COORD_MAX as int, n);
        vstd::arithmetic::mul::lemma_mul_is_commutative(n, RENDER_COORD_MAX as int);
        vstd::arithmetic::div_mod::lemma_div_pos_is_pos(-a, n);
    }
}

} // verus!
