//! The application window: what its events ask for, and what is due in a frame.
use crate::budget::MemoryBudget;
use crate::gc::GcPolicy;
use crate::input::{KeyCode, KeySet};
use crate::timestep::FixedTimestep;
use vstd::prelude::*;

verus! {

/// Nanoseconds of a second.
pub const SECOND: u64 = 1_000_000_000;

/// Frames count as this long at most: a quarter of a second.
pub const LONGEST_FRAME: u64 = 250_000_000;

/// Assets are swept out this often.
pub const GC_INTERVAL: u64 = 5_000_000_000;

/// Assets in memory stay for five minutes after their last use.
pub const CPU_STALE_WINDOW: u64 = 300_000_000_000;

/// Assets on the GPU stay for ten seconds after their last use.
pub const GPU_STALE_WINDOW: u64 = 10_000_000_000;

/// Length of a tick of the simulation: a sixtieth of a second.
pub const TICK_STEP: u128 = 16_666_667;

/// An event of the window.
#[derive(Clone, Copy, Debug)]
pub enum WindowInput {
    CloseRequested,
    Resized { width: u32, height: u32 },
    RedrawRequested,
    /// A key went down or up; `None` where it has no place on the keyboard.
    Key { code: Option<KeyCode>, pressed: bool, repeat: bool },
    Button { left: bool, pressed: bool },
    Wheel,
    MouseMotion,
    /// The attempt to capture the mouse succeeded or failed.
    Captured { done: bool },
    Other,
}

/// What an event asks of the surroundings.
#[derive(Clone, Copy, Debug, PartialEq, Eq, Structural)]
pub enum WindowAction {
    Nothing,
    Exit,
    /// Take on a size; for the shape of the view the height counts as one at least.
    Resize { width: u32, height: u32, view_height: u32 },
    Draw,
    /// Show one of the demonstrations.
    LoadDemo { index: usize },
    CaptureMouse,
    ReleaseMouse,
    /// Turn the view by the motion of the mouse.
    Look,
    /// Take the turn of the wheel into account.
    Scroll,
}

/// Keys, switches and demonstration of the window.
#[derive(Debug)]
pub struct WindowState {
    keys: KeySet,
    mouse_captured: bool,
    show_light_debug: bool,
    show_collision_debug: bool,
    current_demo: usize,
    demo_count: usize,
}

/// The contents of the window state.
pub struct WindowModel {
    pub keys: Set<KeyCode>,
    pub mouse_captured: bool,
    pub show_light_debug: bool,
    pub show_collision_debug: bool,
    pub current_demo: usize,
    pub demo_count: usize,
}

impl View for WindowState {
    type V = WindowModel;

    closed spec fn view(&self) -> WindowModel {
        WindowModel {
            keys: self.keys@,
            mouse_captured: self.mouse_captured,
            show_light_debug: self.show_light_debug,
            show_collision_debug: self.show_collision_debug,
            current_demo: self.current_demo,
            demo_count: self.demo_count,
        }
    }
}

/// The window once a demonstration was asked for: nothing where it is shown already or does not
/// exist.
pub open spec fn after_switch(m: WindowModel, index: usize) -> (WindowModel, WindowAction) {
    if index == m.current_demo || index >= m.demo_count {
        (m, WindowAction::Nothing)
    } else {
        (WindowModel { current_demo: index, ..m }, WindowAction::LoadDemo { index })
    }
}

/// The window after a key event, and what it asks for.
pub open spec fn after_window_key(m: WindowModel, code: KeyCode, pressed: bool, repeat: bool) -> (
    WindowModel,
    WindowAction,
) {
    let held = WindowModel {
        keys: if pressed {
            m.keys.insert(code)
        } else {
            m.keys.remove(code)
        },
        ..m
    };
    let fresh = pressed && !repeat;
    if code == KeyCode::KeyL && fresh {
        (WindowModel { show_light_debug: !m.show_light_debug, ..held }, WindowAction::Nothing)
    } else if code == KeyCode::KeyB && fresh {
        (
            WindowModel { show_collision_debug: !m.show_collision_debug, ..held },
            WindowAction::Nothing,
        )
    } else if code == KeyCode::F1 && fresh {
        after_switch(held, 0)
    } else if code == KeyCode::F2 && fresh {
        after_switch(held, 1)
    } else if code == KeyCode::Escape && m.mouse_captured {
        (WindowModel { mouse_captured: false, ..held }, WindowAction::ReleaseMouse)
    } else {
        (held, WindowAction::Nothing)
    }
}

/// The window after an event, and what it asks for.
pub open spec fn after_window_event(m: WindowModel, event: WindowInput) -> (
    WindowModel,
    WindowAction,
) {
    match event {
        WindowInput::CloseRequested => (m, WindowAction::Exit),
        WindowInput::Resized { width, height } => (
            m,
            WindowAction::Resize {
                width,
                height,
                view_height: if height == 0 {
                    1
                } else {
                    height
                },
            },
        ),
        WindowInput::RedrawRequested => (m, WindowAction::Draw),
        WindowInput::Key { code, pressed, repeat } => match code {
            None => (m, WindowAction::Nothing),
            Some(code) => after_window_key(m, code, pressed, repeat),
        },
        WindowInput::Button { left, pressed } => (
            m,
            if left && pressed && !m.mouse_captured {
                WindowAction::CaptureMouse
            } else {
                WindowAction::Nothing
            },
        ),
        WindowInput::Wheel => (m, WindowAction::Scroll),
        WindowInput::MouseMotion => (
            m,
            if m.mouse_captured {
                WindowAction::Look
            } else {
                WindowAction::Nothing
            },
        ),
        WindowInput::Captured { done } => (
            if done {
                WindowModel { mouse_captured: true, ..m }
            } else {
                m
            },
            WindowAction::Nothing,
        ),
        WindowInput::Other => (m, WindowAction::Nothing),
    }
}

impl WindowState {
    /// A new window that shows the first of some demonstrations.
    pub fn new(demo_count: usize) -> (w: WindowState)
        ensures
            w@.keys == Set::<KeyCode>::empty(),
            !w@.mouse_captured,
            !w@.show_light_debug,
            !w@.show_collision_debug,
            w@.current_demo == 0,
            w@.demo_count == demo_count,
    {
        WindowState {
            keys: KeySet::new(),
            mouse_captured: false,
            show_light_debug: false,
            show_collision_debug: false,
            current_demo: 0,
            demo_count,
        }
    }

    /// The keys that are held.
    pub fn keys(&self) -> (keys: &KeySet)
        ensures
            keys@ == self@.keys,
    {
        &self.keys
    }

    /// Whether lights are drawn for inspection.
    pub fn show_light_debug(&self) -> (b: bool)
        ensures
            b == self@.show_light_debug,
    {
        self.show_light_debug
    }

    /// Whether collision boxes are drawn for inspection.
    pub fn show_collision_debug(&self) -> (b: bool)
        ensures
            b == self@.show_collision_debug,
    {
        self.show_collision_debug
    }

    /// The demonstration that is shown.
    pub fn current_demo(&self) -> (n: usize)
        ensures
            n == self@.current_demo,
    {
        self.current_demo
    }

    /// Asks for a demonstration.
    pub fn switch_demo(&mut self, index: usize) -> (action: WindowAction)
        ensures
            (final(self)@, action) == after_switch(old(self)@, index),
    {
        if index == self.current_demo || index >= self.demo_count {
            return WindowAction::Nothing;
        }
        self.current_demo = index;
        WindowAction::LoadDemo { index }
    }

    /// Takes an event; gives what it asks of the surroundings.
    pub fn handle_window_event(&mut self, event: WindowInput) -> (action: WindowAction)
        ensures
            (final(self)@, action) == after_window_event(old(self)@, event),
    {
        match event {
            WindowInput::CloseRequested => WindowAction::Exit,
            WindowInput::Resized { width, height } => WindowAction::Resize {
                width,
                height,
                view_height: if height == 0 {
                    1
                } else {
                    height
                },
            },
            WindowInput::RedrawRequested => WindowAction::Draw,
            WindowInput::Key { code, pressed, repeat } => {
                let code = match code {
                    None => {
                        return WindowAction::Nothing;
                    },
                    Some(code) => code,
                };
                if pressed {
                    self.keys.insert(code);
                } else {
                    self.keys.remove(code);
                }
                if pressed && !repeat {
                    if code == KeyCode::KeyL {
                        self.show_light_debug = !self.show_light_debug;
                    }
                    if code == KeyCode::KeyB {
                        self.show_collision_debug = !self.show_collision_debug;
                    }
                    if code == KeyCode::F1 {
                        return self.switch_demo(0);
                    }
                    if code == KeyCode::F2 {
                        return self.switch_demo(1);
                    }
                }
                if code == KeyCode::Escape && self.mouse_captured {
                    self.mouse_captured = false;
                    return WindowAction::ReleaseMouse;
                }
                WindowAction::Nothing
            },
            WindowInput::Button { left, pressed } => if left && pressed && !self.mouse_captured {
                WindowAction::CaptureMouse
            } else {
                WindowAction::Nothing
            },
            WindowInput::Wheel => WindowAction::Scroll,
            WindowInput::MouseMotion => if self.mouse_captured {
                WindowAction::Look
            } else {
                WindowAction::Nothing
            },
            WindowInput::Captured { done } => {
                if done {
                    self.mouse_captured = true;
                }
                WindowAction::Nothing
            },
            WindowInput::Other => WindowAction::Nothing,
        }
    }
}

/// How assets are to be swept out, in memory and on the GPU.
#[derive(Clone, Copy, Debug, PartialEq, Eq, Structural)]
pub struct Sweep {
    pub cpu: GcPolicy,
    pub gpu: GcPolicy,
}

/// The sweep for some usage: where it exceeds the budget, recency does not protect.
pub open spec fn sweep_for(budget: MemoryBudget, cpu_usage: u64, gpu_usage: u64) -> Sweep {
    Sweep {
        cpu: GcPolicy {
            stale_window: CPU_STALE_WINDOW,
            evict_pinned: false,
            ignore_stale_window: cpu_usage > budget.cpu_limit,
        },
        gpu: GcPolicy {
            stale_window: GPU_STALE_WINDOW,
            evict_pinned: false,
            ignore_stale_window: gpu_usage > budget.gpu_limit,
        },
    }
}

/// The sweep for some usage.
pub fn plan_sweep(budget: &MemoryBudget, cpu_usage: u64, gpu_usage: u64) -> (s: Sweep)
    ensures
        s == sweep_for(*budget, cpu_usage, gpu_usage),
{
    Sweep {
        cpu: GcPolicy {
            stale_window: CPU_STALE_WINDOW,
            evict_pinned: false,
            ignore_stale_window: cpu_usage > budget.cpu_limit,
        },
        gpu: GcPolicy {
            stale_window: GPU_STALE_WINDOW,
            evict_pinned: false,
            ignore_stale_window: gpu_usage > budget.gpu_limit,
        },
    }
}

/// What is due in a frame.
#[derive(Clone, Copy, Debug, PartialEq, Eq, Structural)]
pub struct FrameDue {
    /// Length of the frame, as far as it counts.
    pub frame: u64,
    /// Ticks of the simulation.
    pub ticks: u32,
    /// Assets are to be swept out.
    pub sweep: bool,
}

/// The clock of the application: ticks of the simulation, and the time since the last sweep.
#[derive(Clone, Copy, Debug)]
pub struct FrameClock {
    timestep: FixedTimestep,
    gc_accum: u64,
}

impl FrameClock {
    /// Time that is not yet spent on ticks.
    pub closed spec fn spec_rest(self) -> u128 {
        self.timestep.spec_rest()
    }

    /// Time since the last sweep.
    pub closed spec fn spec_since(self) -> u64 {
        self.gc_accum
    }

    /// Ticks have their usual length, and the last sweep was less than an interval ago.
    pub closed spec fn wf(self) -> bool {
        self.timestep.spec_step() == TICK_STEP && self.timestep.spec_rest() < TICK_STEP
            && self.gc_accum < GC_INTERVAL
    }

    /// A clock that starts now.
    pub fn new() -> (c: FrameClock)
        ensures
            c.wf(),
            c.spec_rest() == 0,
            c.spec_since() == 0,
    {
        FrameClock { timestep: FixedTimestep::new(TICK_STEP), gc_accum: 0 }
    }

    /// Takes the time since the last frame; gives what is due.
    pub fn update(&mut self, elapsed: u64) -> (d: FrameDue)
        requires
            old(self).wf(),
        ensures
            final(self).wf(),
            d.frame == if elapsed < LONGEST_FRAME {
                elapsed
            } else {
                LONGEST_FRAME
            },
            d.ticks == (old(self).spec_rest() + d.frame) / TICK_STEP as int,
            final(self).spec_rest() == (old(self).spec_rest() + d.frame) % TICK_STEP as int,
            d.sweep == (old(self).spec_since() + d.frame >= GC_INTERVAL),
            final(self).spec_since() == if d.sweep {
                0
            } else {
                old(self).spec_since() + d.frame
            },
    {
        let frame = if elapsed < LONGEST_FRAME {
            elapsed
        } else {
            LONGEST_FRAME
        };
        let ghost rest = self.timestep.spec_rest();
        let ticks = self.timestep.advance(frame as u128);
        self.gc_accum = self.gc_accum + frame;
        let sweep = self.gc_accum >= GC_INTERVAL;
        if sweep {
            self.gc_accum = 0;
        }
        proof {
            let t = rest + frame;
            assert(t / 16_666_667 <= 16);
            assert(ticks == t / 16_666_667);
            assert(self.timestep.spec_rest() == t - ticks * 16_666_667);
        }
        FrameDue { frame, ticks, sweep }
    }
}

/// Strokes change the set of held keys by that key alone; fresh strokes of L and B flip their own
/// display; Escape frees a captured mouse.
pub proof fn window_keys_do_one_thing_each(
    m: WindowModel,
    code: KeyCode,
    pressed: bool,
    repeat: bool,
    other: KeyCode,
)
    ensures
        ({
            let (after, action) = after_window_event(
                m,
                WindowInput::Key { code: Some(code), pressed, repeat },
            );
            let fresh = pressed && !repeat;
            &&& after.keys.contains(code) <==> pressed
            &&& other != code ==> after.keys.contains(other) == m.keys.contains(other)
            &&& after.show_light_debug == (m.show_light_debug != (code == KeyCode::KeyL && fresh))
            &&& after.show_collision_debug == (m.show_collision_debug != (code == KeyCode::KeyB
                && fresh))
            &&& code != KeyCode::Escape ==> after.mouse_captured == m.mouse_captured
            &&& code == KeyCode::Escape && m.mouse_captured ==> !after.mouse_captured
                && action is ReleaseMouse
            &&& code == KeyCode::Escape && !m.mouse_captured ==> action is Nothing
            &&& code != KeyCode::F1 && code != KeyCode::F2 ==> after.current_demo == m.current_demo
            &&& after.demo_count == m.demo_count
            &&& code == KeyCode::F1 && fresh && m.current_demo != 0 && m.demo_count > 0
                ==> after.current_demo == 0 && action == (WindowAction::LoadDemo { index: 0 })
            &&& code == KeyCode::F2 && fresh && m.current_demo != 1 && m.demo_count > 1
                ==> after.current_demo == 1 && action == (WindowAction::LoadDemo { index: 1 })
            &&& !fresh ==> after.current_demo == m.current_demo && !(action is LoadDemo)
        }),
        after_window_event(m, WindowInput::Key { code: None, pressed, repeat }) == (
            m,
            WindowAction::Nothing,
        ),
{
}

/// A demonstration is loaded exactly where there is one of that number and it is not shown yet; it
/// is shown then.
pub proof fn demos_are_switched_once(m: WindowModel, index: usize)
    ensures
        after_switch(m, index).1 is LoadDemo <==> index < m.demo_count && index != m.current_demo,
        after_switch(m, index).1 matches WindowAction::LoadDemo { index: i } ==> i == index
            && after_switch(m, index).0.current_demo == index,
        !(after_switch(m, index).1 is LoadDemo) ==> after_switch(m, index) == (
            m,
            WindowAction::Nothing,
        ),
        after_switch(after_switch(m, index).0, index).1 is Nothing,
        after_switch(m, index).0.keys == m.keys,
        after_switch(m, index).0.mouse_captured == m.mouse_captured,
        after_switch(m, index).0.show_light_debug == m.show_light_debug,
        after_switch(m, index).0.show_collision_debug == m.show_collision_debug,
        after_switch(m, index).0.demo_count == m.demo_count,
{
}

/// Everything else asks for what it says and changes nothing, but for a capture that succeeded. A
/// height of zero counts as one in the shape of the view.
pub proof fn window_events_ask_for_what_they_say(
    m: WindowModel,
    width: u32,
    height: u32,
    left: bool,
    pressed: bool,
    done: bool,
)
    ensures
        after_window_event(m, WindowInput::CloseRequested) == (m, WindowAction::Exit),
        after_window_event(m, WindowInput::RedrawRequested) == (m, WindowAction::Draw),
        after_window_event(m, WindowInput::Wheel) == (m, WindowAction::Scroll),
        after_window_event(m, WindowInput::Other) == (m, WindowAction::Nothing),
        ({
            let (after, action) = after_window_event(m, WindowInput::Resized { width, height });
            &&& after == m
            &&& action matches WindowAction::Resize { width: w, height: h, view_height } && w
                == width && h == height && view_height >= 1 && (height >= 1 ==> view_height
                == height) && (height == 0 ==> view_height == 1)
        }),
        after_window_event(m, WindowInput::Button { left, pressed }).0 == m,
        after_window_event(m, WindowInput::Button { left, pressed }).1 is CaptureMouse <==> left
            && pressed && !m.mouse_captured,
        after_window_event(m, WindowInput::Button { left, pressed }).1 is CaptureMouse
            || after_window_event(m, WindowInput::Button { left, pressed }).1 is Nothing,
        after_window_event(m, WindowInput::MouseMotion) == (
            m,
            if m.mouse_captured {
                WindowAction::Look
            } else {
                WindowAction::Nothing
            },
        ),
        after_window_event(m, WindowInput::Captured { done }).0.mouse_captured == (m.mouse_captured
            || done),
        after_window_event(m, WindowInput::Captured { done }).0.keys == m.keys,
        after_window_event(m, WindowInput::Captured { done }).1 is Nothing,
{
}

/// A sweep never takes what is pinned. It regards how long ago something was used only while no
/// more memory is used than the budget grants; there, main memory keeps what was used in the last
/// five minutes, the graphics memory what was used in the last ten seconds.
pub proof fn sweeps_spare_pins_and_recent_use(
    budget: MemoryBudget,
    cpu_usage: u64,
    gpu_usage: u64,
    info: crate::gc::GcInfo,
    now: u64,
)
    ensures
        ({
            let s = sweep_for(budget, cpu_usage, gpu_usage);
            &&& info.pins > 0 ==> s.cpu.keeps(info, now) && s.gpu.keeps(info, now)
            &&& info.pins == 0 && cpu_usage > budget.cpu_limit ==> !s.cpu.keeps(info, now)
            &&& info.pins == 0 && gpu_usage > budget.gpu_limit ==> !s.gpu.keeps(info, now)
            &&& info.pins == 0 && cpu_usage <= budget.cpu_limit ==> (s.cpu.keeps(info, now)
                <==> info.last_used + 300 * SECOND >= now)
            &&& info.pins == 0 && gpu_usage <= budget.gpu_limit ==> (s.gpu.keeps(info, now)
                <==> info.last_used + 10 * SECOND >= now)
        }),
{
}

/// The times by which a window runs: sixty ticks take a second and less than sixty billionths more,
/// a frame counts for a quarter of a second at most, and every five seconds assets are swept.
pub proof fn times_are_in_seconds()
    ensures
        SECOND == 1_000_000_000,
        SECOND <= 60 * TICK_STEP < SECOND + 60,
        4 * LONGEST_FRAME == SECOND,
        GC_INTERVAL == 5 * SECOND,
{
}

} // verus!
