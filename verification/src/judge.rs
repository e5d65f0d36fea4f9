//! The judgment engine's pure core: pointer events, timing grades, flick
//! resolution and the transformed hit-area test.
//!
//! Everything here is an exact function from plain values to plain values;
//! the stateful phases that walk a session's note buckets live with the
//! session itself.

use vstd::prelude::*;
use crate::chart::Vec2;
use crate::chart::JudgeFieldInner;
use crate::chart::JudgeType;
use crate::chart::PPM;
use crate::score::Judge;

verus! {

/// Pointer coordinates are clamped to this magnitude before any geometry,
/// so malformed per-frame input cannot overflow anything.
pub const CLICK_COORD_MAX: i64 = 1_000_000_000_000;

/// Timing window, in milliseconds, inside which a tap is Immaculate.
pub const IMMACULATE_WINDOW_MS: i64 = 50;

/// Timing window for an Extra grade.
pub const EXTRA_WINDOW_MS: i64 = 70;

/// Timing window for a Normal grade.
pub const NORMAL_WINDOW_MS: i64 = 120;

/// Timing window for a Fade grade; beyond it a note is missed.
pub const FADE_WINDOW_MS: i64 = 150;

/// How far a pointer must travel, in canvas units, to count as a flick.
pub const FLICK_DISTANCE: i64 = 5;

/// How long a flick gesture may take before it is forced to a Miss.
pub const FLICK_TIMEOUT_MS: i64 = 120;

/// Tangent of the angled-flick tolerance (fifteen degrees), in
/// parts-per-million.
pub const ANGLE_TOLERANCE_TAN_PPM: i64 = 267_949;

/// The state of one pointer in an input event.
#[derive(Clone, Copy, PartialEq, Eq, Structural, Debug)]
pub enum ClickState {
    Pressed,
    Pressing,
    Released,
}

/// One pointer of an input event: id, position and state.
#[derive(Clone, Copy, PartialEq, Eq, Structural, Debug)]
pub struct Click {
    pub id: u64,
    pub position: Vec2,
    pub state: ClickState,
}

/// A set of discrete pointer events submitted once per judgment call.
#[derive(Clone, PartialEq, Debug)]
pub struct JudgeEvent {
    pub clicks: Vec<Click>,
}

impl JudgeEvent {
    /// An event with no pointers, as the scheduler submits in auto mode.
    pub fn empty() -> (event: JudgeEvent)
        ensures
            event.clicks@.len() == 0,
    {
        JudgeEvent { clicks: Vec::new() }
    }
}

/// A value clamped into the admissible pointer-coordinate range.
pub open spec fn spec_clamp_coord(v: int) -> int {
    if v > CLICK_COORD_MAX {
        CLICK_COORD_MAX as int
    } else if v < -CLICK_COORD_MAX {
        -CLICK_COORD_MAX as int
    } else {
        v
    }
}

/// Clamp one coordinate into the admissible pointer range.
pub fn clamp_coord(v: i64) -> (r: i64)
    ensures
        r == spec_clamp_coord(v as int),
{
    if v > CLICK_COORD_MAX {
        CLICK_COORD_MAX
    } else if v < -CLICK_COORD_MAX {
        -CLICK_COORD_MAX
    } else {
        v
    }
}

/// A point clamped into the admissible pointer-coordinate range.
pub open spec fn spec_clamp_point(p: Vec2) -> Vec2 {
    Vec2 { x: spec_clamp_coord(p.x as int) as i64, y: spec_clamp_coord(p.y as int) as i64 }
}

/// Whether both coordinates of a point are within the pointer range.
pub open spec fn click_coord_ok(p: Vec2) -> bool {
    -CLICK_COORD_MAX <= p.x <= CLICK_COORD_MAX && -CLICK_COORD_MAX <= p.y <= CLICK_COORD_MAX
}

/// Clamp a point into the admissible pointer range.
pub fn clamp_point(p: Vec2) -> (r: Vec2)
    ensures
        r == spec_clamp_point(p),
        click_coord_ok(r),
{
    Vec2 { x: clamp_coord(p.x), y: clamp_coord(p.y) }
}

/// Truncating division (rounding towards zero, as machine division
/// does), for a positive divisor.
pub open spec fn spec_div_trunc(a: int, b: int) -> int {
    if a >= 0 {
        a / b
    } else {
        -((-a) / b)
    }
}

/// The closeness of a hit `abs_delta` milliseconds from perfect, inside
/// the Immaculate window: one minus the ratio of the delta to the window,
/// in parts-per-million.
pub open spec fn spec_closeness_ppm(abs_delta: int) -> int {
    PPM - abs_delta * 20_000
}

/// The four-tier timing grade for a hit `abs_delta` milliseconds from
/// perfect.
pub open spec fn spec_grade_timing(abs_delta: int) -> Judge {
    if abs_delta < IMMACULATE_WINDOW_MS {
        Judge::Immaculate(spec_closeness_ppm(abs_delta) as u64)
    } else if abs_delta < EXTRA_WINDOW_MS {
        Judge::Extra
    } else if abs_delta < NORMAL_WINDOW_MS {
        Judge::Normal
    } else if abs_delta < FADE_WINDOW_MS {
        Judge::Fade
    } else {
        Judge::Miss
    }
}

/// Grade a hit by how far, in milliseconds, it lies from the note's judge
/// time: under 50 ms an Immaculate scaled by closeness, then Extra under
/// 70 ms, Normal under 120 ms, Fade under 150 ms, Miss beyond.
pub fn grade_timing(abs_delta_ms: i64) -> (judge: Judge)
    requires
        0 <= abs_delta_ms,
    ensures
        judge == spec_grade_timing(abs_delta_ms as int),
        judge.wf(),
{
    if abs_delta_ms < IMMACULATE_WINDOW_MS {
        Judge::Immaculate((PPM - abs_delta_ms * 20_000) as u64)
    } else if abs_delta_ms < EXTRA_WINDOW_MS {
        Judge::Extra
    } else if abs_delta_ms < NORMAL_WINDOW_MS {
        Judge::Normal
    } else if abs_delta_ms < FADE_WINDOW_MS {
        Judge::Fade
    } else {
        Judge::Miss
    }
}

/// An Immaculate grade scaled by `factor_ppm`; the other tiers carry no
/// closeness and pass through unchanged.
pub open spec fn spec_scale_immaculate(judge: Judge, factor_ppm: int) -> Judge {
    match judge {
        Judge::Immaculate(c) => Judge::Immaculate((c * factor_ppm / (PPM as int)) as u64),
        _ => judge,
    }
}

/// Scale an Immaculate grade's closeness by a ratio of at most one.
pub fn scale_immaculate(judge: Judge, factor_ppm: u64) -> (r: Judge)
    requires
        judge.wf(),
        factor_ppm <= PPM,
    ensures
        r == spec_scale_immaculate(judge, factor_ppm as int),
        r.wf(),
    {
    match judge {
        Judge::Immaculate(c) => {
            proof {
                assert(c * factor_ppm <= 1_000_000 * 1_000_000) by (nonlinear_arith)
                    requires
                        c <= 1_000_000,
                        factor_ppm <= 1_000_000,
                {
                }
                assert((c * factor_ppm) as int / 1_000_000 <= 1_000_000);
            }
            Judge::Immaculate(c * factor_ppm / (PPM as u64))
        },
        _ => judge,
    }
}

/// Truncating division for any non-zero divisor: the sign of the divisor
/// factors out of the truncating quotient.
pub open spec fn spec_div_trunc_signed(a: int, b: int) -> int {
    if b > 0 {
        spec_div_trunc(a, b)
    } else {
        -spec_div_trunc(a, -b)
    }
}

/// Both factors bounded in magnitude bound their product.
pub proof fn lemma_mul_bound(a: int, b: int, ma: int, mb: int)
    by (nonlinear_arith)
    requires
        -ma <= a <= ma,
        -mb <= b <= mb,
        0 <= ma,
        0 <= mb,
    ensures
        -(ma * mb) <= a * b <= ma * mb,
{
}

/// Truncating division on machine integers, matching
/// [`spec_div_trunc_signed`]; the divisor must be positive and the
/// dividend clear of the extreme value.
fn div_i128(a: i128, b: i128) -> (q: i128)
    requires
        b > 0,
        -100_000_000_000_000_000_000_000_000_000_000_000_000 <= a,
        a <= 100_000_000_000_000_000_000_000_000_000_000_000_000,
    ensures
        q == spec_div_trunc_signed(a as int, b as int),
{
    if a >= 0 {
        a / b
    } else {
        -((-a) / b)
    }
}

/// Whether pointer position `p` lies inside the field's hit-area: the
/// rectangle `min..=max`, scaled about `transform_origin` by `scale`,
/// rotated about it by the stored rotation, then shifted by `position`.
///
/// The test inverts the transform on the point with truncating
/// fixed-point arithmetic; a field scaled to zero width or height
/// contains nothing.
pub open spec fn spec_point_in_field(inner: JudgeFieldInner, p: Vec2) -> bool {
    let qx = p.x - inner.position.x - inner.transform_origin.x;
    let qy = p.y - inner.position.y - inner.transform_origin.y;
    let c = inner.rotate_cos_ppm as int;
    let s = inner.rotate_sin_ppm as int;
    let ux = spec_div_trunc_signed(qx * c + qy * s, PPM as int);
    let uy = spec_div_trunc_signed(qy * c - qx * s, PPM as int);
    if inner.scale.x == 0 || inner.scale.y == 0 {
        false
    } else {
        let vx = spec_div_trunc_signed(ux * PPM, inner.scale.x as int);
        let vy = spec_div_trunc_signed(uy * PPM, inner.scale.y as int);
        &&& inner.min.x - inner.transform_origin.x <= vx
        &&& vx <= inner.max.x - inner.transform_origin.x
        &&& inner.min.y - inner.transform_origin.y <= vy
        &&& vy <= inner.max.y - inner.transform_origin.y
    }
}

/// Decide whether a pointer position lies inside a judge field's
/// transformed hit-area.
pub fn point_in_field(inner: &JudgeFieldInner, p: Vec2) -> (inside: bool)
    requires
        inner.wf(),
        click_coord_ok(p),
    ensures
        inside == spec_point_in_field(*inner, p),
{
    let qx: i128 = p.x as i128 - inner.position.x as i128 - inner.transform_origin.x as i128;
    let qy: i128 = p.y as i128 - inner.position.y as i128 - inner.transform_origin.y as i128;
    let c: i128 = inner.rotate_cos_ppm as i128;
    let s: i128 = inner.rotate_sin_ppm as i128;
    proof {
        lemma_mul_bound(qx as int, c as int, 2_000_000_000_000, 10_000_000);
        lemma_mul_bound(qy as int, s as int, 2_000_000_000_000, 10_000_000);
        lemma_mul_bound(qy as int, c as int, 2_000_000_000_000, 10_000_000);
        lemma_mul_bound(qx as int, s as int, 2_000_000_000_000, 10_000_000);
    }
    let ux = div_i128(qx * c + qy * s, PPM as i128);
    let uy = div_i128(qy * c - qx * s, PPM as i128);
    if inner.scale.x == 0 || inner.scale.y == 0 {
        false
    } else {
        let vx = div_trunc_by(ux * PPM as i128, inner.scale.x as i128);
        let vy = div_trunc_by(uy * PPM as i128, inner.scale.y as i128);
        (inner.min.x - inner.transform_origin.x) as i128 <= vx
            && vx <= (inner.max.x - inner.transform_origin.x) as i128
            && (inner.min.y - inner.transform_origin.y) as i128 <= vy
            && vy <= (inner.max.y - inner.transform_origin.y) as i128
    }
}

/// Truncating division by a divisor of either sign, matching
/// [`spec_div_trunc_signed`].
fn div_trunc_by(a: i128, b: i128) -> (q: i128)
    requires
        b != 0,
        -100_000_000_000_000_000_000_000_000_000_000_000_000 <= a,
        a <= 100_000_000_000_000_000_000_000_000_000_000_000_000,
        -100_000_000_000_000_000_000_000_000_000_000_000_000 <= b,
        b <= 100_000_000_000_000_000_000_000_000_000_000_000_000,
    ensures
        q == spec_div_trunc_signed(a as int, b as int),
{
    if b > 0 {
        div_i128(a, b)
    } else {
        -div_i128(a, -b)
    }
}

/// The angular deviation of displacement `(dx, dy)` from direction
/// `(ux, uy)`, measured by the ratio of its tangent to the tangent of the
/// fifteen-degree tolerance, in parts-per-million. Meaningful when the
/// displacement lies in the direction's forward half-plane (positive dot
/// product).
///
/// The tangent ratio is this library's exact integer stand-in for the
/// angle ratio itself: both measures agree at zero and exactly at the
/// fifteen-degree boundary (so the qualifying test is unchanged), and
/// between them the tangent ratio runs slightly ahead of the angle
/// ratio, scaling an angled flick's closeness down a little more.
pub open spec fn spec_angled_ratio_ppm(dx: int, dy: int, ux: int, uy: int) -> int {
    let dot = dx * ux + dy * uy;
    let cross = dx * uy - dy * ux;
    (if cross >= 0 { cross } else { -cross }) * PPM * PPM / (dot * ANGLE_TOLERANCE_TAN_PPM)
}

/// Instants handed to gesture resolution stay within this bound.
pub const JUDGE_TIME_MAX_MS: i64 = 8_000_000_000_000_000;

/// Ephemeral state binding one pointer to one note during a multi-tick
/// gesture: which note of the field's bucket is tracked, which pointer id
/// drives it, when tracking began and where the pointer was then.
/// Created on initial contact, destroyed exactly when a grade is
/// produced.
#[derive(Clone, Copy, PartialEq, Eq, Structural, Debug)]
pub struct JudgeTrack {
    pub note_id: usize,
    pub linked_click: u64,
    pub start_time: i64,
    pub last_position: Vec2,
}

impl JudgeTrack {
    /// The tracked instant and position are in range.
    pub open spec fn wf(self) -> bool {
        &&& -JUDGE_TIME_MAX_MS <= self.start_time <= JUDGE_TIME_MAX_MS
        &&& click_coord_ok(self.last_position)
    }
}

/// Per-field judging state: the cursor before which every note is
/// handled, and the open gesture tracks.
#[derive(Clone, PartialEq, Debug)]
pub struct JudgeInfo {
    pub current_judge: usize,
    pub judge_tracks: Vec<JudgeTrack>,
}

/// The outcome of evaluating one open track against one pointer, by the
/// bound note's judge type; `None` keeps the track open.
///
/// A pointer with another id never resolves the track. Flick variants
/// produce a full-credit grade once the pointer has moved more than
/// [`FLICK_DISTANCE`] from where tracking began — for angled variants
/// only towards the note's direction, with the closeness scaled down by
/// the normalized angular deviation — and are forced to a Miss when
/// [`FLICK_TIMEOUT_MS`] passes without a qualifying displacement. A hold
/// grades from how far from the note's judge time it was entered: in
/// full once its window has elapsed, with an extra 0.995 penalty on an
/// Immaculate; on an early release after at least eight tenths of the
/// window, scaled by the fraction held; on an earlier release, a Miss.
pub open spec fn spec_resolve_track(
    judge_type: JudgeType,
    judge_time: int,
    track: JudgeTrack,
    click: Click,
    t: int,
) -> Option<Judge> {
    if click.id != track.linked_click {
        None
    } else {
        let dx = spec_clamp_coord(click.position.x as int) - track.last_position.x;
        let dy = spec_clamp_coord(click.position.y as int) - track.last_position.y;
        match judge_type {
            JudgeType::Flick | JudgeType::TapAndFlick => {
                if dx * dx + dy * dy > FLICK_DISTANCE * FLICK_DISTANCE {
                    Some(Judge::Immaculate(PPM as u64))
                } else if t - track.start_time > FLICK_TIMEOUT_MS {
                    Some(Judge::Miss)
                } else {
                    None
                }
            },
            JudgeType::AngledFlick(dir) | JudgeType::AngledTapFlick(dir) => {
                let dot = dx * dir.x + dy * dir.y;
                let ratio = spec_angled_ratio_ppm(dx, dy, dir.x as int, dir.y as int);
                if dx * dx + dy * dy > FLICK_DISTANCE * FLICK_DISTANCE && dot > 0 && ratio
                    < PPM {
                    Some(Judge::Immaculate((PPM - ratio) as u64))
                } else if t - track.start_time > FLICK_TIMEOUT_MS {
                    Some(Judge::Miss)
                } else {
                    None
                }
            },
            JudgeType::Hold(duration) => {
                let entry_delta = if track.start_time - judge_time >= 0 {
                    track.start_time - judge_time
                } else {
                    judge_time - track.start_time
                };
                if t - judge_time > duration {
                    Some(spec_scale_immaculate(spec_grade_timing(entry_delta), 995_000))
                } else if t - judge_time > 0 && click.state is Released {
                    let percent_ppm = (t - judge_time) * PPM / (duration as int);
                    if percent_ppm < 800_000 {
                        Some(Judge::Miss)
                    } else {
                        Some(spec_scale_immaculate(spec_grade_timing(entry_delta), percent_ppm))
                    }
                } else {
                    None
                }
            },
            _ => None,
        }
    }
}

/// Evaluate one open track against one pointer at judgable time `t`.
pub fn resolve_track(
    judge_type: &JudgeType,
    judge_time: i64,
    track: &JudgeTrack,
    click: &Click,
    t: i64,
) -> (r: Option<Judge>)
    requires
        judge_type.wf(),
        crate::chart::time_ok(judge_time as int),
        track.wf(),
        -JUDGE_TIME_MAX_MS <= t <= JUDGE_TIME_MAX_MS,
    ensures
        r == spec_resolve_track(*judge_type, judge_time as int, *track, *click, t as int),
        r is Some ==> r.unwrap().wf(),
{
    if click.id != track.linked_click {
        return None;
    }
    let p = clamp_point(click.position);
    let dx: i128 = p.x as i128 - track.last_position.x as i128;
    let dy: i128 = p.y as i128 - track.last_position.y as i128;
    match judge_type {
        JudgeType::Flick | JudgeType::TapAndFlick => {
            proof {
                lemma_mul_bound(dx as int, dx as int, 2_000_000_000_000, 2_000_000_000_000);
                lemma_mul_bound(dy as int, dy as int, 2_000_000_000_000, 2_000_000_000_000);
            }
            if dx * dx + dy * dy > (FLICK_DISTANCE * FLICK_DISTANCE) as i128 {
                Some(Judge::Immaculate(PPM as u64))
            } else if t - track.start_time > FLICK_TIMEOUT_MS {
                Some(Judge::Miss)
            } else {
                None
            }
        },
        JudgeType::AngledFlick(dir) | JudgeType::AngledTapFlick(dir) => {
            proof {
                lemma_mul_bound(dx as int, dx as int, 2_000_000_000_000, 2_000_000_000_000);
                lemma_mul_bound(dy as int, dy as int, 2_000_000_000_000, 2_000_000_000_000);
                lemma_mul_bound(dx as int, dir.x as int, 2_000_000_000_000, 10_000_000);
                lemma_mul_bound(dy as int, dir.y as int, 2_000_000_000_000, 10_000_000);
                lemma_mul_bound(dx as int, dir.y as int, 2_000_000_000_000, 10_000_000);
                lemma_mul_bound(dy as int, dir.x as int, 2_000_000_000_000, 10_000_000);
            }
            let dot: i128 = dx * dir.x as i128 + dy * dir.y as i128;
            let cross: i128 = dx * dir.y as i128 - dy * dir.x as i128;
            if dx * dx + dy * dy > (FLICK_DISTANCE * FLICK_DISTANCE) as i128 && dot > 0 {
                let cross_abs: i128 = if cross >= 0 {
                    cross
                } else {
                    -cross
                };
                proof {
                    lemma_mul_bound(cross_abs as int, 1_000_000_000_000,
                        40_000_000_000_000_000_000, 1_000_000_000_000);
                    lemma_mul_bound(dot as int, ANGLE_TOLERANCE_TAN_PPM as int,
                        40_000_000_000_000_000_000, 267_949);
                }
                let ratio = div_i128(
                    cross_abs * (PPM as i128) * (PPM as i128),
                    dot * ANGLE_TOLERANCE_TAN_PPM as i128,
                );
                if ratio < PPM as i128 {
                    Some(Judge::Immaculate((PPM as i128 - ratio) as u64))
                } else if t - track.start_time > FLICK_TIMEOUT_MS {
                    Some(Judge::Miss)
                } else {
                    None
                }
            } else if t - track.start_time > FLICK_TIMEOUT_MS {
                Some(Judge::Miss)
            } else {
                None
            }
        },
        JudgeType::Hold(duration) => {
            let entry_delta: i64 = if track.start_time - judge_time >= 0 {
                track.start_time - judge_time
            } else {
                judge_time - track.start_time
            };
            if t - judge_time > *duration {
                Some(scale_immaculate(grade_timing(entry_delta), 995_000))
            } else if t - judge_time > 0 && matches!(click.state, ClickState::Released) {
                proof {
                    vstd::arithmetic::mul::lemma_mul_inequality(
                        (t - judge_time) as int,
                        *duration as int,
                        PPM as int,
                    );
                    vstd::arithmetic::div_mod::lemma_div_is_ordered(
                        (t - judge_time) as int * PPM as int,
                        *duration as int * PPM as int,
                        *duration as int,
                    );
                    vstd::arithmetic::div_mod::lemma_div_multiples_vanish(
                        PPM as int,
                        *duration as int,
                    );
                    vstd::arithmetic::mul::lemma_mul_is_commutative(*duration as int, PPM as int);
                }
                let percent_wide: i128 = (t - judge_time) as i128 * PPM as i128
                    / *duration as i128;
                let percent_ppm: u64 = percent_wide as u64;
                if percent_ppm < 800_000 {
                    Some(Judge::Miss)
                } else {
                    Some(scale_immaculate(grade_timing(entry_delta), percent_ppm))
                }
            } else {
                None
            }
        },
        _ => None,
    }
}

/// What phase B does with a pointer that hits a due note's field,
/// dispatched on the pointer state and the note's judge type: gesture
/// types open a track (tap-entered ones only on a press), a pressed tap
/// grades immediately from its timing, a slide grades full credit on any
/// contact, and every other combination leaves the note pending.
pub open spec fn spec_note_action(state: ClickState, judge_type: JudgeType, delta: int)
    -> Option<NoteAction> {
    match (state, judge_type) {
        (ClickState::Pressed, JudgeType::Hold(_)) => Some(NoteAction::OpenTrack),
        (ClickState::Pressed, JudgeType::TapAndFlick) => Some(NoteAction::OpenTrack),
        (ClickState::Pressed, JudgeType::TapChain(_)) => Some(NoteAction::OpenTrack),
        (ClickState::Pressed, JudgeType::AngledTapFlick(_)) => Some(NoteAction::OpenTrack),
        (_, JudgeType::Flick) => Some(NoteAction::OpenTrack),
        (_, JudgeType::Chain(_)) => Some(NoteAction::OpenTrack),
        (_, JudgeType::AngledFlick(_)) => Some(NoteAction::OpenTrack),
        (ClickState::Pressed, JudgeType::Tap) => Some(
            NoteAction::Grade(spec_grade_timing(if delta >= 0 {
                delta
            } else {
                -delta
            })),
        ),
        (_, JudgeType::Slide) => Some(NoteAction::Grade(Judge::Immaculate(PPM as u64))),
        _ => None,
    }
}

/// What a pointer inside a due note's hit-area leads to.
#[derive(Clone, Copy, PartialEq, Eq, Structural, Debug)]
pub enum NoteAction {
    /// Open a gesture track bound to the pointer; the grade comes later.
    OpenTrack,
    /// Grade the note immediately; terminal.
    Grade(Judge),
}

/// Dispatch one pointer inside a due note's hit-area on the pointer
/// state and the note's judge type; `delta_ms` is how far the current
/// judgable time lies past the note's judge time.
pub fn note_action(state: ClickState, judge_type: &JudgeType, delta_ms: i64) -> (r: Option<
    NoteAction,
>)
    requires
        -JUDGE_TIME_MAX_MS <= delta_ms <= JUDGE_TIME_MAX_MS,
    ensures
        r == spec_note_action(state, *judge_type, delta_ms as int),
        r matches Some(NoteAction::Grade(judge)) ==> judge.wf(),
{
    match (state, judge_type) {
        (ClickState::Pressed, JudgeType::Hold(_)) => Some(NoteAction::OpenTrack),
        (ClickState::Pressed, JudgeType::TapAndFlick) => Some(NoteAction::OpenTrack),
        (ClickState::Pressed, JudgeType::TapChain(_)) => Some(NoteAction::OpenTrack),
        (ClickState::Pressed, JudgeType::AngledTapFlick(_)) => Some(NoteAction::OpenTrack),
        (_, JudgeType::Flick) => Some(NoteAction::OpenTrack),
        (_, JudgeType::Chain(_)) => Some(NoteAction::OpenTrack),
        (_, JudgeType::AngledFlick(_)) => Some(NoteAction::OpenTrack),
        (ClickState::Pressed, JudgeType::Tap) => {
            let abs_delta: i64 = if delta_ms >= 0 {
                delta_ms
            } else {
                -delta_ms
            };
            Some(NoteAction::Grade(grade_timing(abs_delta)))
        },
        (_, JudgeType::Slide) => Some(NoteAction::Grade(Judge::Immaculate(PPM as u64))),
        _ => None,
    }
}

} // verus!
