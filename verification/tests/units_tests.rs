//! Unit tests for the leaf components: the virtual timer, timing grades,
//! the chart checker, animation sampling and the error taxonomy.

use shapoist_core::chart::AnimationTrack;
use shapoist_core::chart::AnimateTarget;
use shapoist_core::chart::Chart;
use shapoist_core::chart::ChainLink;
use shapoist_core::chart::ClickEffect;
use shapoist_core::chart::Easing;
use shapoist_core::chart::JudgeFieldInner;
use shapoist_core::chart::JudgeField;
use shapoist_core::chart::JudgeType;
use shapoist_core::chart::Linker;
use shapoist_core::chart::Note;
use shapoist_core::chart::Vec2;
use shapoist_core::error::ChartError;
use shapoist_core::error::Error;
use shapoist_core::error::PlayError;
use shapoist_core::judge::grade_timing;
use shapoist_core::judge::note_action;
use shapoist_core::judge::point_in_field;
use shapoist_core::judge::ClickState;
use shapoist_core::judge::NoteAction;
use shapoist_core::score::Judge;
use shapoist_core::timer::Timer;

fn tap_note(id: u64, time: i64) -> Note {
    Note {
        note_id: id,
        judge_type: JudgeType::Tap,
        judge_time: time,
        judge_field_id: 1,
        click_effect_id: 0,
        click_effect_position: Vec2 { x: 0, y: 0 },
        linked_shape: None,
    }
}

fn identity_field() -> JudgeField {
    JudgeField {
        inner: JudgeFieldInner {
            min: Vec2 { x: 0, y: 0 },
            max: Vec2 { x: 600, y: 600 },
            position: Vec2 { x: 0, y: 0 },
            transform_origin: Vec2 { x: 0, y: 0 },
            scale: Vec2 { x: 1_000_000, y: 1_000_000 },
            rotate_cos_ppm: 1_000_000,
            rotate_sin_ppm: 0,
        },
        animation: vec![],
        start_time: 0,
        sustain_time: 1_000_000,
    }
}

fn empty_chart() -> Chart {
    Chart {
        notes: vec![],
        judge_fields: vec![],
        shapes: vec![],
        click_effects: vec![],
        events: vec![],
        shaders: vec![],
        size: Vec2 { x: 1920, y: 1080 },
    }
}

#[test]
fn timer_starts_paused_at_zero() {
    let timer = Timer::new(500);
    assert!(!timer.is_started());
    assert_eq!(timer.read(500), 0);
    assert_eq!(timer.read(9_000), 0);
}

#[test]
fn timer_start_then_read_advances() {
    let mut timer = Timer::new(0);
    timer.start(0);
    assert!(timer.is_started());
    assert_eq!(timer.read(250), 250);
    assert_eq!(timer.read(1_000), 1_000);
}

#[test]
fn timer_pause_freezes_reading() {
    let mut timer = Timer::new(0);
    timer.start(0);
    timer.pause(400);
    assert!(!timer.is_started());
    assert_eq!(timer.read(10_000), 400);
}

#[test]
fn timer_start_preserves_elapsed_across_pause() {
    let mut timer = Timer::new(0);
    timer.start(0);
    timer.pause(300);
    timer.start(1_000);
    assert!(timer.is_started());
    assert_eq!(timer.read(1_000), 300);
    assert_eq!(timer.read(1_700), 1_000);
}

#[test]
fn timer_redundant_calls_are_no_ops() {
    let mut timer = Timer::new(0);
    timer.pause(100);
    assert!(!timer.is_started());
    assert_eq!(timer.read(100), 0);
    timer.start(200);
    timer.start(900);
    assert!(timer.is_started());
    assert_eq!(timer.read(1_200), 1_000);
    timer.pause(1_200);
    timer.pause(5_000);
    assert_eq!(timer.read(9_999), 1_000);
}

#[test]
fn timer_set_rebases_reading() {
    let mut timer = Timer::new(0);
    timer.set(2_500);
    assert_eq!(timer.read(0), 2_500);
    timer.start(0);
    timer.set(1_000);
    assert_eq!(timer.read(0), 3_500);
}

#[test]
fn timer_set_to_forces_reading() {
    let mut timer = Timer::new(0);
    timer.set_to(8_000, 0);
    assert!(!timer.is_started());
    assert_eq!(timer.read(123), 8_000);
    timer.start(0);
    timer.set_to(4_000, 100);
    assert!(timer.is_started());
    assert_eq!(timer.read(100), 4_000);
}

#[test]
fn timer_pause_clamps_negative_reading() {
    let mut timer = Timer { start_time: 100, pause_time: 0 };
    assert!(timer.is_started());
    assert_eq!(timer.read(50), -50);
    timer.pause(50);
    assert_eq!(timer.read(50), 0);
}

#[test]
fn tap_grading_boundaries() {
    assert_eq!(grade_timing(49), Judge::Immaculate(20_000));
    assert_eq!(grade_timing(51), Judge::Extra);
    assert_eq!(grade_timing(71), Judge::Normal);
    assert_eq!(grade_timing(121), Judge::Fade);
    assert_eq!(grade_timing(151), Judge::Miss);
}

#[test]
fn tap_grading_edges() {
    assert_eq!(grade_timing(0), Judge::Immaculate(1_000_000));
    assert_eq!(grade_timing(50), Judge::Extra);
    assert_eq!(grade_timing(70), Judge::Normal);
    assert_eq!(grade_timing(120), Judge::Fade);
    assert_eq!(grade_timing(150), Judge::Miss);
}

#[test]
fn grade_contributions() {
    assert_eq!(Judge::Immaculate(1_000_000).contribution_ppm(), 1_000_000);
    assert_eq!(Judge::Immaculate(0).contribution_ppm(), 800_000);
    assert_eq!(Judge::Extra.contribution_ppm(), 700_000);
    assert_eq!(Judge::Normal.contribution_ppm(), 300_000);
    assert_eq!(Judge::Fade.contribution_ppm(), 100_000);
    assert_eq!(Judge::Miss.contribution_ppm(), 0);
}

#[test]
fn chart_check_accepts_plain_chart() {
    let mut chart = empty_chart();
    chart.notes.push(tap_note(1, 1_000));
    chart.judge_fields.push(shapoist_core::chart::FieldDef { id: 1, field: identity_field() });
    assert!(chart.check().is_ok());
}

#[test]
fn chart_check_rejects_duplicate_note_ids() {
    let mut chart = empty_chart();
    chart.notes.push(tap_note(7, 1_000));
    chart.notes.push(tap_note(7, 2_000));
    assert_eq!(chart.check(), Err(ChartError::DuplicateId));
}

#[test]
fn chart_check_rejects_chain_notes() {
    let mut chart = empty_chart();
    let mut note = tap_note(1, 1_000);
    note.judge_type = JudgeType::Chain(vec![ChainLink { field_id: 2, delay_ms: 100 }]);
    chart.notes.push(note);
    assert_eq!(chart.check(), Err(ChartError::UnsupportedJudgeType));
}

#[test]
fn chart_check_rejects_zero_length_hold() {
    let mut chart = empty_chart();
    let mut note = tap_note(1, 1_000);
    note.judge_type = JudgeType::Hold(0);
    chart.notes.push(note);
    assert_eq!(chart.check(), Err(ChartError::ValueOutOfRange));
}

#[test]
fn chart_check_rejects_out_of_range_time() {
    let mut chart = empty_chart();
    chart.notes.push(tap_note(1, -5));
    assert_eq!(chart.check(), Err(ChartError::ValueOutOfRange));
}

#[test]
fn default_click_effect_has_one_shape_per_tier() {
    let effect = ClickEffect::default();
    assert_eq!(effect.immaculate_effect.len(), 1);
    assert_eq!(effect.extra_effect.len(), 1);
    assert_eq!(effect.normal_effect.len(), 1);
    assert_eq!(effect.fade_effect.len(), 1);
    assert_eq!(effect.miss_effect.len(), 1);
    assert_eq!(effect.immaculate_effect[0].sustain_time, 300);
}

#[test]
fn animation_track_linear_interpolation() {
    let track = AnimationTrack {
        target: AnimateTarget::PositionX,
        start_time: 1_000,
        start_value: 0,
        linkers: vec![Linker { end_value: 100, sustain_time: 1_000, easing: Easing::Linear }],
    };
    assert_eq!(track.value_at(999), 0);
    assert_eq!(track.value_at(1_000), 0);
    assert_eq!(track.value_at(1_500), 50);
    assert_eq!(track.value_at(1_999), 99);
    assert_eq!(track.value_at(2_000), 100);
    assert_eq!(track.value_at(50_000), 100);
}

#[test]
fn animation_track_mutation_jumps_at_end() {
    let track = AnimationTrack {
        target: AnimateTarget::Other(3),
        start_time: 0,
        start_value: 10,
        linkers: vec![
            Linker { end_value: 20, sustain_time: 500, easing: Easing::Mutation },
            Linker { end_value: -30, sustain_time: 500, easing: Easing::Linear },
        ],
    };
    assert_eq!(track.value_at(0), 10);
    assert_eq!(track.value_at(499), 10);
    assert_eq!(track.value_at(500), 20);
    assert_eq!(track.value_at(750), -5);
    assert_eq!(track.value_at(1_000), -30);
}

#[test]
fn note_dispatch_by_state_and_type() {
    assert_eq!(note_action(ClickState::Pressing, &JudgeType::Tap, 0), None);
    assert_eq!(note_action(ClickState::Released, &JudgeType::Hold(100), 0), None);
    assert_eq!(
        note_action(ClickState::Pressed, &JudgeType::TapAndFlick, 0),
        Some(NoteAction::OpenTrack)
    );
    assert_eq!(
        note_action(ClickState::Released, &JudgeType::Flick, 0),
        Some(NoteAction::OpenTrack)
    );
    assert_eq!(
        note_action(ClickState::Pressed, &JudgeType::Tap, -49),
        Some(NoteAction::Grade(Judge::Immaculate(20_000)))
    );
    assert_eq!(
        note_action(ClickState::Pressing, &JudgeType::Slide, 200_000),
        Some(NoteAction::Grade(Judge::Immaculate(1_000_000)))
    );
}

#[test]
fn rotated_hit_area_is_tested_in_field_space() {
    let inner = JudgeFieldInner {
        min: Vec2 { x: 0, y: 0 },
        max: Vec2 { x: 100, y: 50 },
        position: Vec2 { x: 0, y: 0 },
        transform_origin: Vec2 { x: 0, y: 0 },
        scale: Vec2 { x: 1_000_000, y: 1_000_000 },
        rotate_cos_ppm: 0,
        rotate_sin_ppm: 1_000_000,
    };
    assert!(point_in_field(&inner, Vec2 { x: -25, y: 50 }));
    assert!(!point_in_field(&inner, Vec2 { x: 25, y: 50 }));
    assert!(!point_in_field(&inner, Vec2 { x: -25, y: 150 }));
}

#[test]
fn zero_scaled_hit_area_contains_nothing() {
    let inner = JudgeFieldInner {
        min: Vec2 { x: 0, y: 0 },
        max: Vec2 { x: 100, y: 50 },
        position: Vec2 { x: 0, y: 0 },
        transform_origin: Vec2 { x: 0, y: 0 },
        scale: Vec2 { x: 0, y: 1_000_000 },
        rotate_cos_ppm: 1_000_000,
        rotate_sin_ppm: 0,
    };
    assert!(!point_in_field(&inner, Vec2 { x: 10, y: 10 }));
}

#[test]
fn error_wrapping_keeps_the_cause() {
    assert_eq!(Error::from(ChartError::FileMissing), Error::ChartError(ChartError::FileMissing));
    assert_eq!(Error::from(PlayError::NoChartLoaded), Error::PlayError(PlayError::NoChartLoaded));
    assert_eq!(
        Error::from(shapoist_core::error::ChartEditError::NotInEditMode),
        Error::ChartEditError(shapoist_core::error::ChartEditError::NotInEditMode)
    );
}
