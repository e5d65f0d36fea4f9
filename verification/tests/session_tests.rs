//! End-to-end tests of the compiled session: compilation, the frame
//! scheduler and the judgment engine.

use shapoist_core::chart::Chart;
use shapoist_core::chart::FieldDef;
use shapoist_core::chart::JudgeField;
use shapoist_core::chart::JudgeFieldInner;
use shapoist_core::chart::JudgeType;
use shapoist_core::chart::Note;
use shapoist_core::chart::Shape;
use shapoist_core::chart::ChartEvent;
use shapoist_core::chart::ChartEventInner;
use shapoist_core::chart::Vec2;
use shapoist_core::error::Error;
use shapoist_core::error::PlayError;
use shapoist_core::judge::Click;
use shapoist_core::judge::ClickState;
use shapoist_core::judge::JudgeEvent;
use shapoist_core::play::AudioAction;
use shapoist_core::score::Judge;
use shapoist_core::session::PlayInfo;
use shapoist_core::session::PlayMode;
use shapoist_core::session::Replay;
use shapoist_core::timer::Timer;

fn identity_field() -> JudgeField {
    JudgeField {
        inner: JudgeFieldInner {
            min: Vec2 { x: 0, y: 0 },
            max: Vec2 { x: 600, y: 600 },
            position: Vec2 { x: 0, y: 0 },
            transform_origin: Vec2 { x: 0, y: 0 },
            scale: Vec2 { x: 1_000_000, y: 1_000_000 },
            rotate_cos_ppm: 1_000_000,
            rotate_sin_ppm: 0,
        },
        animation: vec![],
        start_time: 0,
        sustain_time: 900_000,
    }
}

fn note_with(id: u64, judge_type: JudgeType, time: i64) -> Note {
    Note {
        note_id: id,
        judge_type,
        judge_time: time,
        judge_field_id: 1,
        click_effect_id: 0,
        click_effect_position: Vec2 { x: 1, y: 2 },
        linked_shape: None,
    }
}

fn chart_with_notes(notes: Vec<Note>) -> Chart {
    Chart {
        notes,
        judge_fields: vec![FieldDef { id: 1, field: identity_field() }],
        shapes: vec![],
        click_effects: vec![],
        events: vec![],
        shaders: vec![],
        size: Vec2 { x: 1920, y: 1080 },
    }
}

fn session(chart: Chart, mode: PlayMode) -> PlayInfo {
    PlayInfo::new(chart, 800_000, 0, mode).unwrap()
}

fn click(id: u64, x: i64, y: i64, state: ClickState) -> Click {
    Click { id, position: Vec2 { x, y }, state }
}

fn paused_timer_reading(reading: i64) -> Timer {
    Timer { start_time: 0, pause_time: reading }
}

#[test]
fn compile_buckets_notes_per_field_sorted() {
    let mut notes = vec![];
    notes.push(note_with(1, JudgeType::Tap, 5_000));
    notes.push(note_with(2, JudgeType::Tap, 1_000));
    let mut orphan = note_with(3, JudgeType::Tap, 3_000);
    orphan.judge_field_id = 9;
    notes.push(orphan);
    let mut second = note_with(4, JudgeType::Tap, 2_000);
    second.judge_field_id = 2;
    notes.push(second);
    notes.push(note_with(5, JudgeType::Tap, 500));
    let mut chart = chart_with_notes(notes);
    chart.judge_fields.push(FieldDef { id: 2, field: identity_field() });
    let s = session(chart, PlayMode::Normal);

    assert_eq!(s.total_notes, 5);
    let mut sum = 0;
    for bucket in &s.notes {
        sum += bucket.notes.len();
        for i in 1..bucket.notes.len() {
            assert!(bucket.notes[i - 1].judge_time <= bucket.notes[i].judge_time);
        }
        for note in &bucket.notes {
            assert_eq!(note.judge_field_id, bucket.field_id);
        }
    }
    assert_eq!(sum, 5);
    assert!(s.notes.iter().any(|b| b.field_id == 9));
    assert_eq!(s.judge_fields.len(), 2);
    assert_eq!(s.judged_notes, 0);
    assert_eq!(s.combo, 0);
    assert!(!s.is_finished);
}

#[test]
fn compile_refuses_replay_mode() {
    let chart = chart_with_notes(vec![note_with(1, JudgeType::Tap, 1_000)]);
    let replay = Replay { score_history: vec![], judge_history_events: vec![] };
    let r = PlayInfo::new(chart, 10_000, 0, PlayMode::Replay(replay));
    assert_eq!(r.err(), Some(Error::PlayError(PlayError::UnsupportedMode)));
}

#[test]
fn auto_mode_full_run_reaches_exact_top_score() {
    let mut notes = vec![];
    for i in 0..10 {
        notes.push(note_with(i + 1, JudgeType::Tap, 1_000 * (i as i64 + 1)));
    }
    let mut s = session(chart_with_notes(notes), PlayMode::Auto);
    let r = s.judge(&JudgeEvent { clicks: vec![] }, 100_000, false);
    assert!(r.is_ok());
    assert_eq!(s.judged_notes, 10);
    assert_eq!(s.combo, 10);
    assert_eq!(s.max_combo, 10);
    assert_eq!(s.accuracy_ppm(), 1_000_000);
    assert_eq!(s.score(), 20_000_000);
    for judge in &s.judge_vec {
        assert_eq!(*judge, Judge::Immaculate(1_000_000));
    }
}

#[test]
fn auto_mode_never_inspects_pointer_input() {
    let notes = vec![
        note_with(1, JudgeType::Tap, 1_000),
        note_with(2, JudgeType::Flick, 2_000),
        note_with(3, JudgeType::Hold(500), 3_000),
    ];
    let mut quiet = session(chart_with_notes(notes.clone()), PlayMode::Auto);
    let mut noisy = session(chart_with_notes(notes), PlayMode::Auto);
    quiet.judge(&JudgeEvent { clicks: vec![] }, 10_000, true).unwrap();
    noisy
        .judge(
            &JudgeEvent {
                clicks: vec![
                    click(0, 100, 100, ClickState::Pressed),
                    click(1, -50, 900, ClickState::Released),
                ],
            },
            10_000,
            true,
        )
        .unwrap();
    assert_eq!(quiet.judged_notes, noisy.judged_notes);
    assert_eq!(quiet.judge_vec, noisy.judge_vec);
    assert_eq!(quiet.judged_note_id, noisy.judged_note_id);
    assert_eq!(quiet.combo, noisy.combo);
    assert_eq!(quiet.score(), noisy.score());
}

#[test]
fn tap_is_graded_from_its_timing() {
    let mut s = session(
        chart_with_notes(vec![note_with(1, JudgeType::Tap, 5_000)]),
        PlayMode::Normal,
    );
    let event = JudgeEvent { clicks: vec![click(0, 100, 100, ClickState::Pressed)] };
    s.judge(&event, 5_049, true).unwrap();
    assert_eq!(s.judge_vec, vec![Judge::Immaculate(20_000)]);
    assert_eq!(s.judged_note_id, vec![1]);
    assert_eq!(s.combo, 1);
    assert_eq!(s.judged_notes, 1);
    assert_eq!(s.render_queue.len(), 1);
    assert_eq!(s.render_queue[0].id, 1);
    assert_eq!(s.render_queue[0].start_time, 5_049);
    assert_eq!(s.render_queue[0].position, Vec2 { x: 1, y: 2 });
}

#[test]
fn judged_note_is_never_rejudged() {
    let mut s = session(
        chart_with_notes(vec![note_with(1, JudgeType::Tap, 5_000)]),
        PlayMode::Normal,
    );
    let event = JudgeEvent { clicks: vec![click(0, 100, 100, ClickState::Pressed)] };
    s.judge(&event, 5_000, false).unwrap();
    assert_eq!(s.judged_notes, 1);
    s.judge(&event, 5_010, false).unwrap();
    s.judge(&event, 5_020, false).unwrap();
    assert_eq!(s.judged_notes, 1);
    assert_eq!(s.judged_note_id, vec![1]);
}

#[test]
fn overdue_note_is_missed_without_input() {
    let mut s = session(
        chart_with_notes(vec![note_with(1, JudgeType::Tap, 5_000)]),
        PlayMode::Normal,
    );
    s.judge(&JudgeEvent { clicks: vec![] }, 5_151, false).unwrap();
    assert_eq!(s.judge_vec, vec![Judge::Miss]);
    assert_eq!(s.combo, 0);
    assert_eq!(s.judged_notes, 1);
}

#[test]
fn clicks_outside_the_hit_area_do_nothing() {
    let mut s = session(
        chart_with_notes(vec![note_with(1, JudgeType::Tap, 5_000)]),
        PlayMode::Normal,
    );
    let event = JudgeEvent { clicks: vec![click(0, 10_000, 10_000, ClickState::Pressed)] };
    s.judge(&event, 5_000, false).unwrap();
    assert_eq!(s.judged_notes, 0);
}

#[test]
fn notes_not_yet_in_window_stay_pending() {
    let mut s = session(
        chart_with_notes(vec![note_with(1, JudgeType::Tap, 5_000)]),
        PlayMode::Normal,
    );
    let event = JudgeEvent { clicks: vec![click(0, 100, 100, ClickState::Pressed)] };
    s.judge(&event, 4_000, false).unwrap();
    assert_eq!(s.judged_notes, 0);
}

#[test]
fn negative_judgable_time_does_nothing() {
    let mut s = session(
        chart_with_notes(vec![note_with(1, JudgeType::Tap, 5_000)]),
        PlayMode::Auto,
    );
    s.judge(&JudgeEvent { clicks: vec![] }, -1, true).unwrap();
    assert_eq!(s.judged_notes, 0);
}

#[test]
fn slide_grades_full_credit_on_any_contact() {
    let mut s = session(
        chart_with_notes(vec![note_with(1, JudgeType::Slide, 5_000)]),
        PlayMode::Normal,
    );
    let event = JudgeEvent { clicks: vec![click(0, 100, 100, ClickState::Pressing)] };
    s.judge(&event, 5_100, false).unwrap();
    assert_eq!(s.judge_vec, vec![Judge::Immaculate(1_000_000)]);
}

#[test]
fn flick_resolves_after_enough_displacement() {
    let mut s = session(
        chart_with_notes(vec![note_with(1, JudgeType::Flick, 5_000)]),
        PlayMode::Normal,
    );
    let press = JudgeEvent { clicks: vec![click(7, 100, 100, ClickState::Pressed)] };
    s.judge(&press, 5_000, false).unwrap();
    assert_eq!(s.judged_notes, 0);
    assert_eq!(s.judge_fields[0].info.judge_tracks.len(), 1);
    let sweep = JudgeEvent { clicks: vec![click(7, 110, 100, ClickState::Pressing)] };
    s.judge(&sweep, 5_010, false).unwrap();
    assert_eq!(s.judge_vec, vec![Judge::Immaculate(1_000_000)]);
    assert_eq!(s.judge_fields[0].info.judge_tracks.len(), 0);
}

#[test]
fn flick_times_out_to_a_miss() {
    let mut s = session(
        chart_with_notes(vec![note_with(1, JudgeType::Flick, 5_000)]),
        PlayMode::Normal,
    );
    let press = JudgeEvent { clicks: vec![click(7, 100, 100, ClickState::Pressed)] };
    s.judge(&press, 5_000, false).unwrap();
    let idle = JudgeEvent { clicks: vec![click(7, 101, 100, ClickState::Pressing)] };
    s.judge(&idle, 5_121, false).unwrap();
    assert_eq!(s.judge_vec, vec![Judge::Miss]);
}

#[test]
fn angled_flick_scales_with_angular_deviation() {
    let mut s = session(
        chart_with_notes(vec![
            note_with(1, JudgeType::AngledFlick(Vec2 { x: 1_000_000, y: 0 }), 5_000),
        ]),
        PlayMode::Normal,
    );
    let press = JudgeEvent { clicks: vec![click(7, 100, 100, ClickState::Pressed)] };
    s.judge(&press, 5_000, false).unwrap();
    let sweep = JudgeEvent { clicks: vec![click(7, 110, 101, ClickState::Pressing)] };
    s.judge(&sweep, 5_010, false).unwrap();
    assert_eq!(s.judge_vec, vec![Judge::Immaculate(626_795)]);
}

#[test]
fn hold_released_late_enough_is_scaled() {
    let mut s = session(
        chart_with_notes(vec![note_with(1, JudgeType::Hold(1_000), 1_000)]),
        PlayMode::Normal,
    );
    let press = JudgeEvent { clicks: vec![click(3, 100, 100, ClickState::Pressed)] };
    s.judge(&press, 990, false).unwrap();
    assert_eq!(s.judged_notes, 0);
    let release = JudgeEvent { clicks: vec![click(3, 100, 100, ClickState::Released)] };
    s.judge(&release, 1_900, false).unwrap();
    assert_eq!(s.judge_vec, vec![Judge::Immaculate(720_000)]);
}

#[test]
fn hold_released_too_early_is_missed() {
    let mut s = session(
        chart_with_notes(vec![note_with(1, JudgeType::Hold(1_000), 1_000)]),
        PlayMode::Normal,
    );
    let press = JudgeEvent { clicks: vec![click(3, 100, 100, ClickState::Pressed)] };
    s.judge(&press, 1_000, false).unwrap();
    let release = JudgeEvent { clicks: vec![click(3, 100, 100, ClickState::Released)] };
    s.judge(&release, 1_200, false).unwrap();
    assert_eq!(s.judge_vec, vec![Judge::Miss]);
}

#[test]
fn judge_refuses_replay_mode() {
    let mut s = session(
        chart_with_notes(vec![note_with(1, JudgeType::Tap, 5_000)]),
        PlayMode::Normal,
    );
    s.play_mode = PlayMode::Replay(Replay { score_history: vec![], judge_history_events: vec![] });
    let r = s.judge(&JudgeEvent { clicks: vec![] }, 5_000, false);
    assert_eq!(r, Err(PlayError::UnsupportedMode));
    assert_eq!(s.judged_notes, 0);
}

#[test]
fn shape_is_rendered_exactly_during_its_window() {
    let mut chart = chart_with_notes(vec![]);
    chart.shapes.push(Shape {
        id: 42,
        animation: vec![],
        linked_note_id: None,
        position: Vec2 { x: 0, y: 0 },
        start_time: 2_000,
        sustain_time: 3_000,
    });
    let mut s = session(chart, PlayMode::Normal);
    let mut timer = paused_timer_reading(4_999);
    s.frame(&mut timer, 0, 0, false, false);
    assert_eq!(s.render_queue.len(), 0);

    let mut timer = paused_timer_reading(5_000);
    s.frame(&mut timer, 0, 0, false, false);
    assert_eq!(s.render_queue.len(), 1);
    assert_eq!(s.render_queue[0].id, 42);

    let mut timer = paused_timer_reading(8_000);
    s.frame(&mut timer, 0, 0, false, false);
    assert_eq!(s.render_queue.len(), 1);

    let mut timer = paused_timer_reading(8_001);
    s.frame(&mut timer, 0, 0, false, false);
    assert_eq!(s.render_queue.len(), 0);
}

#[test]
fn shape_linked_to_judged_notes_is_evicted_early() {
    let mut chart = chart_with_notes(vec![note_with(1, JudgeType::Slide, 5_000)]);
    chart.shapes.push(Shape {
        id: 42,
        animation: vec![],
        linked_note_id: Some(vec![1]),
        position: Vec2 { x: 50, y: 60 },
        start_time: 0,
        sustain_time: 500_000,
    });
    let mut s = session(chart, PlayMode::Normal);
    let mut timer = paused_timer_reading(8_000);
    s.frame(&mut timer, 0, 0, false, false);
    assert_eq!(s.render_queue.len(), 1);
    let event = JudgeEvent { clicks: vec![click(0, 100, 100, ClickState::Pressed)] };
    s.judge(&event, 5_000, false).unwrap();
    let mut timer = paused_timer_reading(8_100);
    s.frame(&mut timer, 0, 0, false, false);
    assert_eq!(s.render_queue.len(), 0);
}

#[test]
fn click_effect_is_anchored_at_linked_shape_centroid() {
    let mut chart = chart_with_notes(vec![]);
    let mut note = note_with(1, JudgeType::Slide, 5_000);
    note.linked_shape = Some(vec![42]);
    chart.notes.push(note);
    chart.shapes.push(Shape {
        id: 42,
        animation: vec![],
        linked_note_id: None,
        position: Vec2 { x: 50, y: 60 },
        start_time: 0,
        sustain_time: 500_000,
    });
    let mut s = session(chart, PlayMode::Normal);
    let mut timer = paused_timer_reading(8_000);
    s.frame(&mut timer, 0, 0, false, false);
    let event = JudgeEvent { clicks: vec![click(0, 100, 100, ClickState::Pressing)] };
    s.judge(&event, 5_000, true).unwrap();
    let effect = &s.render_queue[s.render_queue.len() - 1];
    assert_eq!(effect.id, 1);
    assert_eq!(effect.position, Vec2 { x: 50, y: 60 });
}

#[test]
fn finished_session_is_idempotent() {
    let mut chart = chart_with_notes(vec![note_with(1, JudgeType::Tap, 1_000)]);
    chart.shapes.push(Shape {
        id: 42,
        animation: vec![],
        linked_note_id: None,
        position: Vec2 { x: 0, y: 0 },
        start_time: 0,
        sustain_time: 900_000,
    });
    let mut s = PlayInfo::new(chart, 4_000, 0, PlayMode::Auto).unwrap();
    let mut timer = paused_timer_reading(3_000 + 4_001);
    s.frame(&mut timer, 0, 0, false, false);
    assert!(s.is_finished);
    assert_eq!(s.render_queue.len(), 0);
    let score_before = s.score();
    let combo_before = s.combo;
    let judged_before = s.judged_notes;
    let mut timer = paused_timer_reading(3_000 + 9_000);
    let action = s.frame(&mut timer, 0, 0, true, true);
    assert_eq!(action, AudioAction::Pause);
    assert!(!timer.is_started());
    assert_eq!(s.score(), score_before);
    assert_eq!(s.combo, combo_before);
    assert_eq!(s.judged_notes, judged_before);
    assert_eq!(s.render_queue.len(), 0);
}

#[test]
fn music_starts_exactly_once() {
    let mut s = session(chart_with_notes(vec![]), PlayMode::Normal);
    let mut timer = paused_timer_reading(2_000);
    assert_eq!(s.frame(&mut timer, 0, 0, true, false), AudioAction::Keep);
    let mut timer = paused_timer_reading(3_500);
    assert_eq!(s.frame(&mut timer, 0, 0, true, false), AudioAction::Play(500));
    assert!(s.is_track_played);
    let mut timer = paused_timer_reading(3_600);
    assert_eq!(s.frame(&mut timer, 0, 0, true, false), AudioAction::Keep);
}

#[test]
fn music_start_honours_chart_and_global_offsets() {
    let mut chart = chart_with_notes(vec![]);
    chart.shapes.clear();
    let mut s = PlayInfo::new(chart, 800_000, 250, PlayMode::Normal).unwrap();
    let mut timer = paused_timer_reading(2_800);
    assert_eq!(s.frame(&mut timer, 0, 100, true, false), AudioAction::Play(150));
}

#[test]
fn events_fire_once_and_switch_the_shader() {
    let mut chart = chart_with_notes(vec![]);
    chart.shaders.push(7);
    chart.events.push(ChartEvent { inner: ChartEventInner::ChangeShader(Some(7)), time: 1_000 });
    chart.events.push(ChartEvent { inner: ChartEventInner::ChangeShader(Some(99)), time: 2_000 });
    chart.events.push(ChartEvent { inner: ChartEventInner::Custom(5), time: 3_000 });
    let mut s = session(chart, PlayMode::Normal);
    let mut timer = paused_timer_reading(3_000 + 1_500);
    s.frame(&mut timer, 0, 0, false, false);
    assert_eq!(s.current_shader, Some(7));
    assert_eq!(s.current_event, 1);
    let mut timer = paused_timer_reading(3_000 + 2_500);
    s.frame(&mut timer, 0, 0, false, false);
    assert_eq!(s.current_shader, None);
    assert_eq!(s.current_event, 2);
    let mut timer = paused_timer_reading(3_000 + 3_500);
    s.frame(&mut timer, 0, 0, false, false);
    assert_eq!(s.current_shader, None);
    assert_eq!(s.current_event, 3);
}

#[test]
fn expired_judge_fields_are_dropped() {
    let mut chart = chart_with_notes(vec![]);
    chart.judge_fields[0].field.sustain_time = 1_000;
    let mut s = session(chart, PlayMode::Normal);
    assert_eq!(s.judge_fields.len(), 1);
    let mut timer = paused_timer_reading(3_000 + 1_500);
    s.frame(&mut timer, 0, 0, false, false);
    assert_eq!(s.judge_fields.len(), 0);
}

#[test]
fn frame_in_auto_mode_judges_due_notes() {
    let mut s = session(
        chart_with_notes(vec![note_with(1, JudgeType::Tap, 1_000)]),
        PlayMode::Auto,
    );
    let mut timer = paused_timer_reading(3_000 + 2_000);
    s.frame(&mut timer, 0, 0, false, false);
    assert_eq!(s.judged_notes, 1);
    assert_eq!(s.judge_vec, vec![Judge::Immaculate(1_000_000)]);
}

#[test]
fn refresh_preserves_history_and_never_rejudges() {
    let mut s = session(
        chart_with_notes(vec![note_with(1, JudgeType::Tap, 5_000)]),
        PlayMode::Normal,
    );
    let event = JudgeEvent { clicks: vec![click(0, 100, 100, ClickState::Pressed)] };
    s.judge(&event, 5_000, false).unwrap();
    assert_eq!(s.judged_notes, 1);
    let score_before = s.score();

    let edited = chart_with_notes(vec![
        note_with(1, JudgeType::Tap, 5_000),
        note_with(2, JudgeType::Tap, 6_000),
    ]);
    s.refresh_play_info(edited).unwrap();
    assert_eq!(s.total_notes, 2);
    assert_eq!(s.judged_notes, 1);
    assert_eq!(s.judged_note_id, vec![1]);
    assert_eq!(s.combo, 1);
    assert_ne!(s.score(), score_before);
    s.judge(&event, 5_000, false).unwrap();
    assert_eq!(s.judged_notes, 1);
    s.judge(&event, 6_049, false).unwrap();
    assert_eq!(s.judged_notes, 2);
    assert_eq!(s.judged_note_id, vec![1, 2]);
}

#[test]
fn refresh_refuses_to_drop_a_judged_note() {
    let mut s = session(
        chart_with_notes(vec![note_with(1, JudgeType::Tap, 5_000)]),
        PlayMode::Normal,
    );
    let event = JudgeEvent { clicks: vec![click(0, 100, 100, ClickState::Pressed)] };
    s.judge(&event, 5_000, false).unwrap();
    let edited = chart_with_notes(vec![note_with(2, JudgeType::Tap, 6_000)]);
    let r = s.refresh_play_info(edited);
    assert_eq!(
        r,
        Err(Error::ChartError(shapoist_core::error::ChartError::JudgedNoteMissing))
    );
    assert_eq!(s.total_notes, 1);
    assert_eq!(s.judged_notes, 1);
}

#[test]
fn accuracy_is_the_running_mean_of_contributions() {
    let mut s = session(
        chart_with_notes(vec![
            note_with(1, JudgeType::Tap, 1_000),
            note_with(2, JudgeType::Tap, 2_000),
        ]),
        PlayMode::Normal,
    );
    let event = JudgeEvent { clicks: vec![click(0, 100, 100, ClickState::Pressed)] };
    s.judge(&event, 1_000, false).unwrap();
    assert_eq!(s.accuracy_ppm(), 1_000_000);
    s.judge(&JudgeEvent { clicks: vec![] }, 2_151, false).unwrap();
    assert_eq!(s.judge_vec, vec![Judge::Immaculate(1_000_000), Judge::Miss]);
    assert_eq!(s.accuracy_ppm(), 500_000);
    assert_eq!(s.max_combo, 1);
    assert_eq!(s.combo, 0);
    assert_eq!(s.score(), (18 * 1_000_000 + 2_000_000) / 2);
}
