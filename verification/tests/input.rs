//! Keys, actions, the free camera and the window.
use glam::Vec3;
use lbr::budget::{parse_mib, MemoryBudget, DEFAULT_LIMIT};
use lbr::controller::{action_movement, slide, ControlAction, ControlEvent, FreeCameraController, Movement};
use lbr::input::{ActionState, InputAction, InputBindings, KeyCode, KeySet};
use lbr::timestep::FixedTimestep;
use lbr::window::{
    plan_sweep, FrameClock, WindowAction, WindowInput, WindowState, CPU_STALE_WINDOW,
    GPU_STALE_WINDOW, SECOND,
};

fn keys(list: &[KeyCode]) -> KeySet {
    let mut set = KeySet::new();
    for k in list {
        set.insert(*k);
    }
    set
}

#[test]
fn bind_input_maps_keys_to_actions_and_edges() {
    let bindings = InputBindings::default();
    let mut state = ActionState::new();
    state.bind_input(&bindings, &keys(&[KeyCode::KeyW, KeyCode::KeyL]));
    assert!(state.pressed(InputAction::MoveForward));
    assert!(!state.pressed(InputAction::MoveBackward));
    assert!(state.just_pressed(InputAction::MoveForward));
    assert!(state.just_pressed(InputAction::ToggleLightDebug));
}

#[test]
fn edges_only_fire_on_change() {
    let bindings = InputBindings::default();
    let mut state = ActionState::new();
    let held = keys(&[KeyCode::KeyW]);
    state.bind_input(&bindings, &held);
    assert!(state.just_pressed(InputAction::MoveForward));

    state.bind_input(&bindings, &held);
    assert!(state.pressed(InputAction::MoveForward));
    assert!(!state.just_pressed(InputAction::MoveForward));

    state.bind_input(&bindings, &KeySet::new());
    assert!(state.just_released(InputAction::MoveForward));
    assert!(!state.pressed(InputAction::MoveForward));
}

#[test]
fn bindings_can_be_changed() {
    let mut bindings = InputBindings::default();
    assert_eq!(bindings.action_for(KeyCode::ArrowUp), Some(InputAction::MoveForward));
    assert_eq!(bindings.action_for(KeyCode::Other(1)), None);
    bindings.bind(InputAction::MoveBackward, KeyCode::Other(1));
    assert_eq!(bindings.action_for(KeyCode::Other(1)), Some(InputAction::MoveBackward));
    let list = bindings.keys_for(InputAction::MoveBackward).unwrap();
    assert!(list.contains(&KeyCode::Other(1)));
    let mut set = keys(&[KeyCode::F1, KeyCode::F1]);
    assert_eq!(set.len(), 1);
    let copy = set.copy();
    set.remove(KeyCode::F1);
    assert!(!set.contains(KeyCode::F1) && copy.contains(KeyCode::F1));
}

const STEP: u128 = 16_666_667;

#[test]
fn fixed_timestep_accumulates_ticks() {
    let mut timestep = FixedTimestep::new(STEP);
    let ticks = timestep.advance(STEP * 5 / 2);
    let alpha = timestep.rest() as f64 / timestep.step() as f64;
    assert_eq!(ticks, 2);
    assert!((alpha - 0.5).abs() < 1e-3);
    let ticks = timestep.advance(STEP / 5);
    assert_eq!(ticks, 0);
}

#[test]
fn many_frames_make_as_many_ticks_as_one_long_one() {
    let mut one = FixedTimestep::new(10);
    let mut many = FixedTimestep::new(10);
    let mut ticks = 0;
    for _ in 0..7 {
        ticks += many.advance(9);
    }
    assert_eq!(one.advance(63), ticks);
    assert_eq!(one.rest(), many.rest());
    assert_eq!(one.rest(), 3);
}

fn press(c: &mut FreeCameraController<(i32, i32)>, code: KeyCode) {
    c.handle_event(ControlEvent::Key { code, pressed: true, repeat: false });
}

fn controller() -> FreeCameraController<(i32, i32)> {
    let mut c = FreeCameraController::new();
    press(&mut c, KeyCode::KeyW);
    c
}

const COLLIDER_HALF: Vec3 = Vec3::new(0.3, 0.9, 0.3);
const SPEED: f32 = 5.0;

/// One frame of a camera at the origin that looks along X, among cubes of side one.
fn step(m: Movement, dt: f32, walls: &[Vec3]) -> Vec3 {
    let wish = Vec3::X * m.forward as f32 + Vec3::Z * m.right as f32 + Vec3::Y * m.up as f32;
    let delta = wish.normalize_or_zero() * SPEED * dt;
    let parts = vec![delta * Vec3::X, delta * Vec3::Z, delta * Vec3::Y];
    slide(
        Vec3::ZERO,
        &parts,
        |v: Vec3| v == Vec3::ZERO,
        |a: Vec3, b: Vec3| a + b,
        |p: Vec3| {
            walls.iter().any(|w| {
                let gap = (p - *w).abs();
                gap.cmple(COLLIDER_HALF + Vec3::splat(0.5)).all()
            })
        },
    )
}

#[test]
fn forward_movement_blocked_by_wall() {
    let c = controller();
    let way = step(c.movement(), 0.1, &[Vec3::new(1.0, 0.0, 0.0)]);
    assert_eq!(way, Vec3::ZERO);
}

#[test]
fn forward_movement_free_when_no_obstacle() {
    let c = controller();
    assert_eq!(step(c.movement(), 0.1, &[]), Vec3::new(0.5, 0.0, 0.0));
}

#[test]
fn diagonal_movement_slides_along_wall() {
    let mut c = controller();
    press(&mut c, KeyCode::KeyD);
    let way = step(c.movement(), 0.1, &[Vec3::new(1.0, 0.0, 0.0)]);
    assert!(way.x.abs() < 1e-6, "{way:?}");
    assert!((way.z - std::f32::consts::FRAC_1_SQRT_2 * 0.5).abs() < 1e-6, "{way:?}");
}

fn action_step(pressed: &[KeyCode], dt: f32, walls: &[Vec3]) -> Vec3 {
    let mut state = ActionState::new();
    state.bind_input(&InputBindings::default(), &keys(pressed));
    step(action_movement(&state), dt, walls)
}

#[test]
fn camera_moves_and_slides_along_walls() {
    let way = action_step(&[KeyCode::KeyW], 0.1, &[Vec3::new(1.0, 0.0, 0.0)]);
    assert_eq!(way, Vec3::ZERO);
}

#[test]
fn camera_moves_free_when_no_obstacle() {
    let way = action_step(&[KeyCode::KeyW], 1.0 / 60.0, &[]);
    assert!((way.x - 5.0 / 60.0).abs() < 1e-6);
}

#[test]
fn opposite_keys_cancel() {
    let mut c = controller();
    press(&mut c, KeyCode::KeyS);
    press(&mut c, KeyCode::Space);
    assert_eq!(c.movement(), Movement { forward: 0, right: 0, up: 1 });
    press(&mut c, KeyCode::ControlLeft);
    assert_eq!(c.movement().up, 0);
    c.handle_event(ControlEvent::Key { code: KeyCode::KeyS, pressed: false, repeat: false });
    assert_eq!(c.movement().forward, 1);
}

#[test]
fn the_mouse_is_captured_and_released() {
    let mut c: FreeCameraController<(i32, i32)> = FreeCameraController::new();
    let a = c.handle_event(ControlEvent::Button { left: true, pressed: true });
    assert!(matches!(a, ControlAction::CaptureMouse));
    c.handle_event(ControlEvent::Captured { done: true });
    assert!(c.mouse_captured());
    assert!(matches!(c.handle_event(ControlEvent::MouseMotion), ControlAction::Look));
    let esc = ControlEvent::Key { code: KeyCode::Escape, pressed: true, repeat: false };
    assert!(matches!(c.handle_event(esc), ControlAction::ReleaseMouse));
    assert!(!c.mouse_captured());
    press(&mut c, KeyCode::KeyL);
    assert!(c.show_light_debug());
    c.handle_event(ControlEvent::Key { code: KeyCode::KeyL, pressed: true, repeat: true });
    assert!(c.show_light_debug());
    press(&mut c, KeyCode::KeyB);
    assert!(c.show_collision_debug());
    assert!(c.pressed(KeyCode::KeyB));
}

#[test]
fn the_window_switches_demos() {
    let mut w = WindowState::new(2);
    let key = |code| WindowInput::Key { code: Some(code), pressed: true, repeat: false };
    assert_eq!(w.handle_window_event(key(KeyCode::F1)), WindowAction::Nothing);
    assert_eq!(w.handle_window_event(key(KeyCode::F2)), WindowAction::LoadDemo { index: 1 });
    assert_eq!(w.current_demo(), 1);
    assert_eq!(w.switch_demo(5), WindowAction::Nothing);
    assert_eq!(w.handle_window_event(WindowInput::CloseRequested), WindowAction::Exit);
    assert_eq!(
        w.handle_window_event(WindowInput::Resized { width: 4, height: 0 }),
        WindowAction::Resize { width: 4, height: 0, view_height: 1 }
    );
    assert_eq!(w.handle_window_event(WindowInput::MouseMotion), WindowAction::Nothing);
    w.handle_window_event(WindowInput::Captured { done: true });
    assert_eq!(w.handle_window_event(WindowInput::MouseMotion), WindowAction::Look);
    assert_eq!(w.handle_window_event(key(KeyCode::Escape)), WindowAction::ReleaseMouse);
    w.handle_window_event(key(KeyCode::KeyL));
    w.handle_window_event(key(KeyCode::KeyB));
    assert!(w.show_light_debug() && w.show_collision_debug());
    assert!(w.keys().contains(KeyCode::KeyL));
}

#[test]
fn frames_are_cut_and_sweeps_come_every_five_seconds() {
    let mut clock = FrameClock::new();
    let d = clock.update(10 * SECOND);
    assert_eq!(d.frame, SECOND / 4);
    assert_eq!(d.ticks, 14);
    assert!(!d.sweep);
    let mut sweeps = 0;
    for _ in 0..39 {
        if clock.update(SECOND / 4).sweep {
            sweeps += 1;
        }
    }
    assert_eq!(sweeps, 2);
}

#[test]
fn sweeps_are_hard_under_pressure() {
    let budget = MemoryBudget { cpu_limit: 100, gpu_limit: 200 };
    let s = plan_sweep(&budget, 101, 200);
    assert!(s.cpu.ignore_stale_window && !s.gpu.ignore_stale_window);
    assert_eq!(s.cpu.stale_window, CPU_STALE_WINDOW);
    assert_eq!(s.gpu.stale_window, GPU_STALE_WINDOW);
    assert!(!s.cpu.evict_pinned);
}

#[test]
fn budgets_come_from_settings_or_the_machine() {
    assert_eq!(parse_mib(" 512 "), Some(512 * 1024 * 1024));
    assert_eq!(parse_mib("x"), None);
    assert_eq!(parse_mib(""), None);
    assert_eq!(parse_mib("99999999999999999999"), None);
    let b = MemoryBudget::load(None, None, 8000);
    assert_eq!((b.cpu_limit, b.gpu_limit), (2000, DEFAULT_LIMIT));
    let b = MemoryBudget::load(Some(1), Some(2), 8000);
    assert_eq!((b.cpu_limit, b.gpu_limit), (1, 2));
    assert_eq!(MemoryBudget::load(None, None, 0).cpu_limit, DEFAULT_LIMIT);
}
