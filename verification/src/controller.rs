//! The free camera: what keys and mouse ask of it. Events are only collected; once a frame the
//! camera is moved by what was collected.
use crate::input::{ActionState, InputAction, KeyCode, KeySet};
use vstd::prelude::*;

verus! {

/// An event that the controller cares about. `P` is the type of cursor positions.
#[derive(Clone, Copy, Debug)]
pub enum ControlEvent<P> {
    /// A key went down or up; `repeat` where it is held.
    Key { code: KeyCode, pressed: bool, repeat: bool },
    /// A mouse button went down or up.
    Button { left: bool, pressed: bool },
    /// The cursor is at a position.
    CursorMoved { position: P },
    /// The mouse was moved.
    MouseMotion,
    /// The wheel was turned.
    Wheel,
    /// The attempt to capture the mouse succeeded or failed.
    Captured { done: bool },
}

/// What an event asks of the surroundings.
#[derive(Clone, Copy, Debug)]
pub enum ControlAction<P> {
    Nothing,
    /// Lock or confine the cursor, and hide it.
    CaptureMouse,
    /// Free and show the cursor.
    ReleaseMouse,
    /// Turn the view by the way between two cursor positions.
    Drag { from: P, to: P },
    /// Turn the view by the motion of the mouse.
    Look,
    /// Take the turn of the wheel into account.
    Scroll,
}

/// Collects input for the free camera.
#[derive(Debug)]
pub struct FreeCameraController<P> {
    keys: KeySet,
    dragging: bool,
    last_cursor: Option<P>,
    mouse_captured: bool,
    show_light_debug: bool,
    show_collision_debug: bool,
}

/// The contents of a controller.
pub struct ControlModel<P> {
    pub keys: Set<KeyCode>,
    pub dragging: bool,
    pub last_cursor: Option<P>,
    pub mouse_captured: bool,
    pub show_light_debug: bool,
    pub show_collision_debug: bool,
}

impl<P> View for FreeCameraController<P> {
    type V = ControlModel<P>;

    closed spec fn view(&self) -> ControlModel<P> {
        ControlModel {
            keys: self.keys@,
            dragging: self.dragging,
            last_cursor: self.last_cursor,
            mouse_captured: self.mouse_captured,
            show_light_debug: self.show_light_debug,
            show_collision_debug: self.show_collision_debug,
        }
    }
}

/// The controller after a key event, and what it asks for. Keys that are held do not switch
/// anything again.
pub open spec fn after_key<P>(
    m: ControlModel<P>,
    code: KeyCode,
    pressed: bool,
    repeat: bool,
) -> (ControlModel<P>, ControlAction<P>) {
    if !pressed {
        (ControlModel { keys: m.keys.remove(code), ..m }, ControlAction::Nothing)
    } else {
        let held = ControlModel { keys: m.keys.insert(code), ..m };
        if code == KeyCode::KeyL && !repeat {
            (
                ControlModel { show_light_debug: !m.show_light_debug, ..held },
                ControlAction::Nothing,
            )
        } else if code == KeyCode::KeyB && !repeat {
            (
                ControlModel { show_collision_debug: !m.show_collision_debug, ..held },
                ControlAction::Nothing,
            )
        } else if code == KeyCode::Escape && m.mouse_captured {
            (
                ControlModel { mouse_captured: false, last_cursor: None, ..held },
                ControlAction::ReleaseMouse,
            )
        } else {
            (held, ControlAction::Nothing)
        }
    }
}

/// The controller after an event, and what it asks for.
pub open spec fn after_event<P>(m: ControlModel<P>, event: ControlEvent<P>) -> (
    ControlModel<P>,
    ControlAction<P>,
) {
    match event {
        ControlEvent::Key { code, pressed, repeat } => after_key(m, code, pressed, repeat),
        ControlEvent::Button { left, pressed } => {
            let moved = if left {
                ControlModel {
                    dragging: pressed,
                    last_cursor: if pressed {
                        m.last_cursor
                    } else {
                        None
                    },
                    ..m
                }
            } else {
                m
            };
            if pressed && !m.mouse_captured {
                (moved, ControlAction::CaptureMouse)
            } else {
                (moved, ControlAction::Nothing)
            }
        },
        ControlEvent::CursorMoved { position } => if m.dragging && !m.mouse_captured {
            (
                ControlModel { last_cursor: Some(position), ..m },
                match m.last_cursor {
                    Some(last) => ControlAction::Drag { from: last, to: position },
                    None => ControlAction::Nothing,
                },
            )
        } else {
            (m, ControlAction::Nothing)
        },
        ControlEvent::MouseMotion => (
            m,
            if m.mouse_captured || m.dragging {
                ControlAction::Look
            } else {
                ControlAction::Nothing
            },
        ),
        ControlEvent::Wheel => (m, ControlAction::Scroll),
        ControlEvent::Captured { done } => if done {
            (ControlModel { mouse_captured: true, ..m }, ControlAction::Nothing)
        } else {
            (m, ControlAction::Nothing)
        },
    }
}

/// The ways that are asked for; opposite ones cancel each other.
#[derive(Clone, Copy, Debug, PartialEq, Eq, Structural)]
pub struct Movement {
    /// Along the view, level: 1 forwards, -1 backwards.
    pub forward: i8,
    /// To the side: 1 right, -1 left.
    pub right: i8,
    /// Up and down: 1 up, -1 down.
    pub up: i8,
}

/// One where the first is asked for, minus one where the second is, zero where both or none are.
pub open spec fn balance(plus: bool, minus: bool) -> i8 {
    if plus && !minus {
        1
    } else if minus && !plus {
        -1i8
    } else {
        0
    }
}

/// The ways that some held keys ask for.
pub open spec fn movement_of(keys: Set<KeyCode>) -> Movement {
    Movement {
        forward: balance(
            keys.contains(KeyCode::KeyW) || keys.contains(KeyCode::ArrowUp),
            keys.contains(KeyCode::KeyS) || keys.contains(KeyCode::ArrowDown),
        ),
        right: balance(
            keys.contains(KeyCode::KeyD) || keys.contains(KeyCode::ArrowRight),
            keys.contains(KeyCode::KeyA) || keys.contains(KeyCode::ArrowLeft),
        ),
        up: balance(
            keys.contains(KeyCode::Space),
            keys.contains(KeyCode::ControlLeft) || keys.contains(KeyCode::ControlRight),
        ),
    }
}

/// The ways that some held actions ask for.
pub open spec fn movement_of_actions(actions: Set<InputAction>) -> Movement {
    Movement {
        forward: balance(
            actions.contains(InputAction::MoveForward),
            actions.contains(InputAction::MoveBackward),
        ),
        right: balance(
            actions.contains(InputAction::MoveRight),
            actions.contains(InputAction::MoveLeft),
        ),
        up: balance(
            actions.contains(InputAction::MoveUp),
            actions.contains(InputAction::MoveDown),
        ),
    }
}

/// The ways that the held actions ask for.
pub fn action_movement(state: &ActionState) -> (m: Movement)
    ensures
        m == movement_of_actions(state@.pressed),
{
    Movement {
        forward: weigh(
            state.pressed(InputAction::MoveForward),
            state.pressed(InputAction::MoveBackward),
        ),
        right: weigh(
            state.pressed(InputAction::MoveRight),
            state.pressed(InputAction::MoveLeft),
        ),
        up: weigh(state.pressed(InputAction::MoveUp), state.pressed(InputAction::MoveDown)),
    }
}

fn weigh(plus: bool, minus: bool) -> (n: i8)
    ensures
        n == balance(plus, minus),
{
    if plus && !minus {
        1
    } else if minus && !plus {
        -1
    } else {
        0
    }
}

impl<P: Copy> FreeCameraController<P> {
    /// Nothing was collected yet.
    pub fn new() -> (c: FreeCameraController<P>)
        ensures
            c@.keys == Set::<KeyCode>::empty(),
            !c@.dragging,
            c@.last_cursor is None,
            !c@.mouse_captured,
            !c@.show_light_debug,
            !c@.show_collision_debug,
    {
        FreeCameraController {
            keys: KeySet::new(),
            dragging: false,
            last_cursor: None,
            mouse_captured: false,
            show_light_debug: false,
            show_collision_debug: false,
        }
    }

    /// Whether lights are drawn for inspection.
    pub fn show_light_debug(&self) -> (b: bool)
        ensures
            b == self@.show_light_debug,
    {
        self.show_light_debug
    }

    /// Whether collision boxes are drawn for inspection.
    pub fn show_collision_debug(&self) -> (b: bool)
        ensures
            b == self@.show_collision_debug,
    {
        self.show_collision_debug
    }

    /// Whether the mouse is captured.
    pub fn mouse_captured(&self) -> (b: bool)
        ensures
            b == self@.mouse_captured,
    {
        self.mouse_captured
    }

    /// Whether a key is held.
    pub fn pressed(&self, code: KeyCode) -> (b: bool)
        ensures
            b == self@.keys.contains(code),
    {
        self.keys.contains(code)
    }

    /// Collects an event; gives what it asks of the surroundings.
    pub fn handle_event(&mut self, event: ControlEvent<P>) -> (action: ControlAction<P>)
        ensures
            (final(self)@, action) == after_event(old(self)@, event),
    {
        match event {
            ControlEvent::Key { code, pressed, repeat } => {
                if !pressed {
                    self.keys.remove(code);
                    return ControlAction::Nothing;
                }
                self.keys.insert(code);
                if code == KeyCode::KeyL && !repeat {
                    self.show_light_debug = !self.show_light_debug;
                }
                if code == KeyCode::KeyB && !repeat {
                    self.show_collision_debug = !self.show_collision_debug;
                }
                if code == KeyCode::Escape && self.mouse_captured {
                    self.mouse_captured = false;
                    self.last_cursor = None;
                    return ControlAction::ReleaseMouse;
                }
                ControlAction::Nothing
            },
            ControlEvent::Button { left, pressed } => {
                if left {
                    self.dragging = pressed;
                    if !self.dragging {
                        self.last_cursor = None;
                    }
                }
                if pressed && !self.mouse_captured {
                    ControlAction::CaptureMouse
                } else {
                    ControlAction::Nothing
                }
            },
            ControlEvent::CursorMoved { position } => {
                if self.dragging && !self.mouse_captured {
                    let last = self.last_cursor;
                    self.last_cursor = Some(position);
                    match last {
                        Some(from) => ControlAction::Drag { from, to: position },
                        None => ControlAction::Nothing,
                    }
                } else {
                    ControlAction::Nothing
                }
            },
            ControlEvent::MouseMotion => if self.mouse_captured || self.dragging {
                ControlAction::Look
            } else {
                ControlAction::Nothing
            },
            ControlEvent::Wheel => ControlAction::Scroll,
            ControlEvent::Captured { done } => {
                if done {
                    self.mouse_captured = true;
                }
                ControlAction::Nothing
            },
        }
    }

    /// The ways that the held keys ask for.
    pub fn movement(&self) -> (m: Movement)
        ensures
            m == movement_of(self@.keys),
    {
        Movement {
            forward: weigh(
                self.pressed(KeyCode::KeyW) || self.pressed(KeyCode::ArrowUp),
                self.pressed(KeyCode::KeyS) || self.pressed(KeyCode::ArrowDown),
            ),
            right: weigh(
                self.pressed(KeyCode::KeyD) || self.pressed(KeyCode::ArrowRight),
                self.pressed(KeyCode::KeyA) || self.pressed(KeyCode::ArrowLeft),
            ),
            up: weigh(
                self.pressed(KeyCode::Space),
                self.pressed(KeyCode::ControlLeft) || self.pressed(KeyCode::ControlRight),
            ),
        }
    }
}

/// What one axis adds to a way: nothing where it is empty or blocked, else its part.
pub open spec fn slid_axis<
    V,
    Z: Fn(V) -> bool,
    A: Fn(V, V) -> V,
    B: Fn(V) -> bool,
>(is_zero: Z, extend: A, blocked: B, way: V, part: V, next: V) -> bool {
    ||| call_ensures(is_zero, (part,), true) && next == way
    ||| call_ensures(is_zero, (part,), false) && exists|further: V|
        {
            &&& #[trigger] call_ensures(extend, (way, part), further)
            &&& (call_ensures(blocked, (further,), true) && next == way) || (call_ensures(
                blocked,
                (further,),
                false,
            ) && next == further)
        }
}

/// What the first `n` axes make of the empty way.
pub open spec fn slid<
    V,
    Z: Fn(V) -> bool,
    A: Fn(V, V) -> V,
    B: Fn(V) -> bool,
>(is_zero: Z, extend: A, blocked: B, start: V, parts: Seq<V>, ways: Seq<V>) -> bool {
    &&& ways.len() == parts.len() + 1
    &&& ways[0] == start
    &&& forall|i: int|
        0 <= i < parts.len() ==> slid_axis(
            is_zero,
            extend,
            blocked,
            ways[i],
            #[trigger] parts[i],
            ways[i + 1],
        )
}

/// Moves along one axis after another. A part that would end in an obstacle is left out and the
/// others go on, so that walls are slid along.
pub fn slide<V: Copy, Z: Fn(V) -> bool, A: Fn(V, V) -> V, B: Fn(V) -> bool>(
    start: V,
    parts: &Vec<V>,
    is_zero: Z,
    extend: A,
    blocked: B,
) -> (way: V)
    requires
        forall|v: V| call_requires(is_zero, (v,)),
        forall|v: V, w: V| call_requires(extend, (v, w)),
        forall|v: V| call_requires(blocked, (v,)),
    ensures
        exists|ways: Seq<V>| #[trigger]
            slid(is_zero, extend, blocked, start, parts@, ways) && ways.last() == way,
{
    let mut way = start;
    let ghost mut ways: Seq<V> = seq![start];
    let mut i: usize = 0;
    while i < parts.len()
        invariant
            i <= parts@.len(),
            ways.len() == i + 1,
            ways[0] == start,
            ways.last() == way,
            forall|v: V| call_requires(is_zero, (v,)),
            forall|v: V, w: V| call_requires(extend, (v, w)),
            forall|v: V| call_requires(blocked, (v,)),
            forall|j: int|
                0 <= j < i ==> slid_axis(
                    is_zero,
                    extend,
                    blocked,
                    ways[j],
                    #[trigger] parts@[j],
                    ways[j + 1],
                ),
        decreases parts@.len() - i,
    {
        let part = parts[i];
        let ghost before = way;
        let ghost ways0 = ways;
        if !is_zero(part) {
            let further = extend(way, part);
            if !blocked(further) {
                way = further;
            }
            proof {
                assert(call_ensures(extend, (before, part), further));
                assert(slid_axis(is_zero, extend, blocked, before, part, way));
            }
        } else {
            proof {
                assert(slid_axis(is_zero, extend, blocked, before, part, way));
            }
        }
        proof {
            ways = ways.push(way);
            assert forall|j: int| 0 <= j < i + 1 implies slid_axis(
                is_zero,
                extend,
                blocked,
                ways[j],
                #[trigger] parts@[j],
                ways[j + 1],
            ) by {
                if j < i {
                    assert(ways[j] == ways0[j] && ways[j + 1] == ways0[j + 1]);
                }
            }
        }
        i += 1;
    }
    proof {
        assert(slid(is_zero, extend, blocked, start, parts@, ways));
    }
    way
}

/// A way that is blocked along every axis is no way at all, and one that is free along every axis
/// is the sum of its parts.
pub proof fn obstacles_only_shorten<
    V,
    Z: Fn(V) -> bool,
    A: Fn(V, V) -> V,
    B: Fn(V) -> bool,
>(is_zero: Z, extend: A, blocked: B, start: V, parts: Seq<V>, ways: Seq<V>)
    requires
        slid(is_zero, extend, blocked, start, parts, ways),
    ensures
        (forall|v: V| !call_ensures(blocked, (v,), false)) ==> ways.last() == start,
        (forall|v: V| !call_ensures(blocked, (v,), true)) && (forall|v: V|
            !call_ensures(is_zero, (v,), true)) ==> forall|i: int|
            0 <= i < parts.len() ==> call_ensures(extend, (ways[i], #[trigger] parts[i]), ways[i + 1]),
    decreases parts.len(),
{
    if forall|v: V| !call_ensures(blocked, (v,), false) {
        if parts.len() > 0 {
            let p = parts.drop_last();
            let w = ways.drop_last();
            assert forall|i: int| 0 <= i < p.len() implies slid_axis(
                is_zero,
                extend,
                blocked,
                w[i],
                #[trigger] p[i],
                w[i + 1],
            ) by {
                assert(p[i] == parts[i]);
            }
            obstacles_only_shorten(is_zero, extend, blocked, start, p, w);
            let n = parts.len() - 1;
            assert(slid_axis(is_zero, extend, blocked, ways[n], parts[n], ways[n + 1]));
            assert(w.last() == ways[n]);
        }
    }
    if (forall|v: V| !call_ensures(blocked, (v,), true)) && (forall|v: V|
        !call_ensures(is_zero, (v,), true)) {
        assert forall|i: int| 0 <= i < parts.len() implies call_ensures(
            extend,
            (ways[i], #[trigger] parts[i]),
            ways[i + 1],
        ) by {
            assert(slid_axis(is_zero, extend, blocked, ways[i], parts[i], ways[i + 1]));
        }
    }
}

/// Switches flip only when their key goes down anew: holding the key or letting it go changes
/// nothing, and pressing it twice is as if it was never pressed.
pub proof fn switches_flip_once<P>(m: ControlModel<P>, code: KeyCode)
    ensures
        after_key(m, code, true, true).0.show_light_debug == m.show_light_debug,
        after_key(m, code, true, true).0.show_collision_debug == m.show_collision_debug,
        after_key(m, code, false, false).0.show_light_debug == m.show_light_debug,
        after_key(m, code, false, false).0.show_collision_debug == m.show_collision_debug,
        ({
            let once = after_key(m, code, true, false).0;
            let twice = after_key(once, code, true, false).0;
            &&& twice.show_light_debug == m.show_light_debug
            &&& twice.show_collision_debug == m.show_collision_debug
        }),
{
}

/// A key is held from when it goes down until it goes up, and no other key changes with it. A fresh
/// stroke of L or B flips its own display; Escape frees the mouse where it is captured; nothing
/// else comes of a key.
pub proof fn keys_do_one_thing_each<P>(
    m: ControlModel<P>,
    code: KeyCode,
    pressed: bool,
    repeat: bool,
    other: KeyCode,
)
    ensures
        ({
            let (after, action) = after_event(
                m,
                ControlEvent::Key { code, pressed, repeat },
            );
            &&& after.keys.contains(code) <==> pressed
            &&& other != code ==> after.keys.contains(other) == m.keys.contains(other)
            &&& after.show_light_debug == (if code == KeyCode::KeyL && pressed && !repeat {
                !m.show_light_debug
            } else {
                m.show_light_debug
            })
            &&& after.show_collision_debug == (if code == KeyCode::KeyB && pressed && !repeat {
                !m.show_collision_debug
            } else {
                m.show_collision_debug
            })
            &&& after.mouse_captured == (m.mouse_captured && !(code == KeyCode::Escape && pressed))
            &&& action == (if code == KeyCode::Escape && pressed && m.mouse_captured {
                ControlAction::<P>::ReleaseMouse
            } else {
                ControlAction::<P>::Nothing
            })
            &&& after.last_cursor == (if action is ReleaseMouse {
                None
            } else {
                m.last_cursor
            })
            &&& after.dragging == m.dragging
        }),
{
}

/// The left button drags while it is down; any button asks for the mouse where it is not captured.
/// The cursor turns the view while it is dragged free, by the way from where it was last; the
/// mouse turns it while it drags or is captured; the wheel always counts. Only a capture that
/// succeeded holds.
pub proof fn the_mouse_turns_the_view<P>(m: ControlModel<P>, left: bool, pressed: bool, at: P, done: bool)
    ensures
        ({
            let (after, action) = after_event(m, ControlEvent::Button { left, pressed });
            &&& after.dragging == (if left {
                pressed
            } else {
                m.dragging
            })
            &&& after.last_cursor == (if left && !pressed {
                None
            } else {
                m.last_cursor
            })
            &&& action == (if pressed && !m.mouse_captured {
                ControlAction::<P>::CaptureMouse
            } else {
                ControlAction::<P>::Nothing
            })
            &&& after.keys == m.keys && after.mouse_captured == m.mouse_captured
            &&& after.show_light_debug == m.show_light_debug && after.show_collision_debug
                == m.show_collision_debug
        }),
        ({
            let (after, action) = after_event(m, ControlEvent::CursorMoved { position: at });
            &&& m.dragging && !m.mouse_captured ==> after.last_cursor == Some(at)
            &&& m.dragging && !m.mouse_captured && m.last_cursor is Some ==> action == (
            ControlAction::Drag { from: m.last_cursor->0, to: at })
            &&& m.dragging && !m.mouse_captured && m.last_cursor is None ==> action is Nothing
            &&& !m.dragging || m.mouse_captured ==> after == m && action is Nothing
            &&& after.keys == m.keys && after.dragging == m.dragging && after.mouse_captured
                == m.mouse_captured
            &&& after.show_light_debug == m.show_light_debug && after.show_collision_debug
                == m.show_collision_debug
        }),
        after_event(m, ControlEvent::MouseMotion) == (
            m,
            if m.mouse_captured || m.dragging {
                ControlAction::<P>::Look
            } else {
                ControlAction::<P>::Nothing
            },
        ),
        after_event(m, ControlEvent::Wheel) == (m, ControlAction::<P>::Scroll),
        after_event(m, ControlEvent::Captured { done }).0.mouse_captured == (m.mouse_captured
            || done),
        after_event(m, ControlEvent::Captured { done }).0.keys == m.keys,
        after_event(m, ControlEvent::Captured { done }).1 is Nothing,
{
}

/// Each way is asked for by its own keys, and by the opposite ones the other way; held together
/// they cancel.
pub proof fn opposite_keys_cancel(keys: Set<KeyCode>, actions: Set<InputAction>)
    ensures
        ({
            let m = movement_of(keys);
            let w = keys.contains(KeyCode::KeyW) || keys.contains(KeyCode::ArrowUp);
            let s = keys.contains(KeyCode::KeyS) || keys.contains(KeyCode::ArrowDown);
            let d = keys.contains(KeyCode::KeyD) || keys.contains(KeyCode::ArrowRight);
            let a = keys.contains(KeyCode::KeyA) || keys.contains(KeyCode::ArrowLeft);
            let u = keys.contains(KeyCode::Space);
            let c = keys.contains(KeyCode::ControlLeft) || keys.contains(KeyCode::ControlRight);
            &&& (m.forward == 1 <==> w && !s) && (m.forward == -1 <==> s && !w) && (m.forward == 0
                <==> w == s)
            &&& (m.right == 1 <==> d && !a) && (m.right == -1 <==> a && !d) && (m.right == 0
                <==> a == d)
            &&& (m.up == 1 <==> u && !c) && (m.up == -1 <==> c && !u) && (m.up == 0 <==> u == c)
        }),
        ({
            let m = movement_of_actions(actions);
            let w = actions.contains(InputAction::MoveForward);
            let s = actions.contains(InputAction::MoveBackward);
            let d = actions.contains(InputAction::MoveRight);
            let a = actions.contains(InputAction::MoveLeft);
            let u = actions.contains(InputAction::MoveUp);
            let c = actions.contains(InputAction::MoveDown);
            &&& (m.forward == 1 <==> w && !s) && (m.forward == -1 <==> s && !w) && (m.forward == 0
                <==> w == s)
            &&& (m.right == 1 <==> d && !a) && (m.right == -1 <==> a && !d) && (m.right == 0
                <==> a == d)
            &&& (m.up == 1 <==> u && !c) && (m.up == -1 <==> c && !u) && (m.up == 0 <==> u == c)
        }),
{
}

/// Along each axis one goes on as asked or stays where one is: one stays only where nothing was
/// asked along it or the way is blocked, and goes on only where it is not.
pub proof fn blocked_axes_are_left_out<
    V,
    Z: Fn(V) -> bool,
    A: Fn(V, V) -> V,
    B: Fn(V) -> bool,
>(is_zero: Z, extend: A, blocked: B, start: V, parts: Seq<V>, ways: Seq<V>, i: int)
    requires
        slid(is_zero, extend, blocked, start, parts, ways),
        0 <= i < parts.len(),
    ensures
        ways.len() == parts.len() + 1,
        ways[0] == start,
        (ways[i + 1] == ways[i] && (call_ensures(is_zero, (parts[i],), true) || exists|v: V|
            #[trigger]
            call_ensures(extend, (ways[i], parts[i]), v) && call_ensures(blocked, (v,), true))) || (
        call_ensures(extend, (ways[i], parts[i]), ways[i + 1]) && call_ensures(
            blocked,
            (ways[i + 1],),
            false,
        ) && call_ensures(is_zero, (parts[i],), false)),
{
    assert(slid_axis(is_zero, extend, blocked, ways[i], parts[i], ways[i + 1]));
}

} // verus!
