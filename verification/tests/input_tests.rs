use scene_engine::input::{
    camera_step, camera_steps, next_flow, Axis, CameraStep, Flow, InputEvent, InputState, Key,
};

fn plus(a: f32, b: f32) -> f32 {
    a + b
}

#[test]
fn new_state_holds_nothing() {
    let mut state: InputState<f32> = InputState::new(0.0);
    let (keys, delta) = state.sample_and_reset();
    assert!(keys.is_empty());
    assert_eq!(delta, (0.0, 0.0));
}

#[test]
fn press_then_release_leaves_no_key() {
    let mut state: InputState<f32> = InputState::new(0.0);
    state.record_key_transition(Key::W, true);
    state.record_key_transition(Key::W, false);
    let (keys, _) = state.sample_and_reset();
    assert_eq!(keys, Vec::<Key>::new());
    assert!(!state.is_pressed(Key::W));
}

#[test]
fn two_presses_enter_the_key_once() {
    let mut state: InputState<f32> = InputState::new(0.0);
    state.record_key_transition(Key::Other(42), true);
    state.record_key_transition(Key::Other(42), true);
    let (keys, _) = state.sample_and_reset();
    assert_eq!(keys, vec![Key::Other(42)]);
    assert!(state.is_pressed(Key::Other(42)));
    assert!(!state.is_pressed(Key::Other(43)));
}

#[test]
fn release_of_a_key_that_is_up_changes_nothing() {
    let mut state: InputState<f32> = InputState::new(0.0);
    state.record_key_transition(Key::A, true);
    state.record_key_transition(Key::D, false);
    let (keys, _) = state.sample_and_reset();
    assert_eq!(keys, vec![Key::A]);
}

#[test]
fn release_keeps_the_order_of_the_other_keys() {
    let mut state: InputState<f32> = InputState::new(0.0);
    state.record_key_transition(Key::A, true);
    state.record_key_transition(Key::W, true);
    state.record_key_transition(Key::Left, true);
    state.record_key_transition(Key::W, false);
    let (keys, _) = state.sample_and_reset();
    assert_eq!(keys, vec![Key::A, Key::Left]);
    state.record_key_transition(Key::W, true);
    let (keys, _) = state.sample_and_reset();
    assert_eq!(keys, vec![Key::A, Key::Left, Key::W]);
}

#[test]
fn sampling_does_not_release_keys() {
    let mut state: InputState<f32> = InputState::new(0.0);
    state.record_key_transition(Key::Q, true);
    let (first, _) = state.sample_and_reset();
    let (second, _) = state.sample_and_reset();
    assert_eq!(first, vec![Key::Q]);
    assert_eq!(second, vec![Key::Q]);
}

#[test]
fn mouse_delta_accumulates_and_resets() {
    let mut state: InputState<f32> = InputState::new(0.0);
    state.accumulate_mouse_delta(1.0, 2.0, &plus);
    state.accumulate_mouse_delta(3.0, 4.0, &plus);
    state.accumulate_mouse_delta(-1.0, 0.0, &plus);
    let (_, delta) = state.sample_and_reset();
    assert_eq!(delta, (3.0, 6.0));
    let (_, again) = state.sample_and_reset();
    assert_eq!(again, (0.0, 0.0));
}

#[test]
fn mouse_delta_accumulates_again_after_a_sample() {
    let mut state: InputState<f32> = InputState::new(0.0);
    state.accumulate_mouse_delta(1.5, -2.0, &plus);
    let _ = state.sample_and_reset();
    state.accumulate_mouse_delta(0.25, 0.5, &plus);
    let (_, delta) = state.sample_and_reset();
    assert_eq!(delta, (0.25, 0.5));
}

#[test]
fn mouse_delta_uses_the_callers_addition() {
    let mut state: InputState<i64> = InputState::new(0);
    state.accumulate_mouse_delta(5, 7, &|a: i64, b: i64| a - b);
    let (_, delta) = state.sample_and_reset();
    assert_eq!(delta, (-5, -7));
}

#[test]
fn steering_keys_map_to_camera_steps() {
    let step = |axis, positive, with_speed| Some(CameraStep { axis, positive, with_speed });
    assert_eq!(camera_step(Key::D), step(Axis::X, true, true));
    assert_eq!(camera_step(Key::A), step(Axis::X, false, true));
    assert_eq!(camera_step(Key::W), step(Axis::Y, true, true));
    assert_eq!(camera_step(Key::S), step(Axis::Y, false, true));
    assert_eq!(camera_step(Key::Q), step(Axis::Z, true, true));
    assert_eq!(camera_step(Key::E), step(Axis::Z, false, true));
    assert_eq!(camera_step(Key::Left), step(Axis::Yaw, true, false));
    assert_eq!(camera_step(Key::Right), step(Axis::Yaw, false, false));
    assert_eq!(camera_step(Key::Up), step(Axis::Pitch, true, false));
    assert_eq!(camera_step(Key::Down), step(Axis::Pitch, false, false));
    assert_eq!(camera_step(Key::Escape), None);
    assert_eq!(camera_step(Key::Other(0)), None);
}

#[test]
fn camera_steps_follow_the_order_of_the_keys() {
    let keys = vec![Key::Up, Key::Other(7), Key::A, Key::Escape, Key::Q];
    let steps = camera_steps(&keys);
    assert_eq!(
        steps,
        vec![
            CameraStep { axis: Axis::Pitch, positive: true, with_speed: false },
            CameraStep { axis: Axis::X, positive: false, with_speed: true },
            CameraStep { axis: Axis::Z, positive: true, with_speed: true },
        ]
    );
    assert_eq!(camera_steps(&Vec::new()), Vec::<CameraStep>::new());
}

#[test]
fn integration_by_elapsed_time_is_independent_of_the_frame_rate() {
    // One frame of 0.5 s and two frames of 0.25 s move the camera equally far.
    let keys = vec![Key::D, Key::Left];
    let speed: f32 = 100.0;
    let run = |frames: &[f32]| {
        let mut x: f32 = 0.0;
        let mut yaw: f32 = 0.0;
        for dt in frames {
            for step in camera_steps(&keys) {
                let amount = if step.with_speed { dt * speed } else { *dt };
                let signed = if step.positive { amount } else { -amount };
                match step.axis {
                    Axis::X => x += signed,
                    Axis::Yaw => yaw += signed,
                    _ => unreachable!(),
                }
            }
        }
        (x, yaw)
    };
    assert_eq!(run(&[0.5]), (50.0, 0.5));
    assert_eq!(run(&[0.25, 0.25]), (50.0, 0.5));
}

#[test]
fn event_loop_ends_on_close_escape_and_dead_renderer() {
    let close: InputEvent<f32> = InputEvent::CloseRequested;
    let escape_down: InputEvent<f32> = InputEvent::Key { key: Key::Escape, pressed: true };
    let escape_up: InputEvent<f32> = InputEvent::Key { key: Key::Escape, pressed: false };
    let other_key: InputEvent<f32> = InputEvent::Key { key: Key::Q, pressed: true };
    let motion: InputEvent<f32> = InputEvent::MouseMotion { dx: 1.0, dy: 1.0 };
    let other: InputEvent<f32> = InputEvent::Other;
    assert_eq!(next_flow(&close, true), Flow::Exit);
    assert_eq!(next_flow(&escape_down, true), Flow::Exit);
    assert_eq!(next_flow(&escape_up, true), Flow::Exit);
    assert_eq!(next_flow(&other_key, true), Flow::Wait);
    assert_eq!(next_flow(&motion, true), Flow::Wait);
    assert_eq!(next_flow(&other, true), Flow::Wait);
    assert_eq!(next_flow(&other_key, false), Flow::Exit);
    assert_eq!(next_flow(&other, false), Flow::Exit);
}

#[test]
fn handled_events_change_the_state() {
    let mut state: InputState<f32> = InputState::new(0.0);
    let flow = state.handle_event(InputEvent::Key { key: Key::W, pressed: true }, true, &plus);
    assert_eq!(flow, Flow::Wait);
    let flow = state.handle_event(InputEvent::MouseMotion { dx: 2.0, dy: -3.0 }, true, &plus);
    assert_eq!(flow, Flow::Wait);
    let flow = state.handle_event(InputEvent::Other, true, &plus);
    assert_eq!(flow, Flow::Wait);
    // The escape key ends the loop and is recorded all the same.
    let flow = state.handle_event(InputEvent::Key { key: Key::Escape, pressed: true }, true, &plus);
    assert_eq!(flow, Flow::Exit);
    // So is a key that arrives after the renderer has died.
    let flow = state.handle_event(InputEvent::Key { key: Key::W, pressed: false }, false, &plus);
    assert_eq!(flow, Flow::Exit);
    let flow = state.handle_event(InputEvent::CloseRequested, true, &plus);
    assert_eq!(flow, Flow::Exit);
    let (keys, delta) = state.sample_and_reset();
    assert_eq!(keys, vec![Key::Escape]);
    assert_eq!(delta, (2.0, -3.0));
}
