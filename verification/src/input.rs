//! From keys to actions: systems ask for actions, a table says which keys trigger them.
use vstd::prelude::*;

verus! {

/// A key, by its place on the keyboard. Keys without a meaning of their own share a variant and
/// are told apart by number.
#[derive(Clone, Copy, Debug, PartialEq, Eq, Structural, Hash)]
pub enum KeyCode {
    KeyA,
    KeyB,
    KeyD,
    KeyE,
    KeyL,
    KeyS,
    KeyW,
    ArrowUp,
    ArrowDown,
    ArrowLeft,
    ArrowRight,
    Space,
    ShiftLeft,
    ControlLeft,
    ControlRight,
    Escape,
    F1,
    F2,
    Other(u32),
}

/// What the player wants to do.
#[derive(Clone, Copy, Debug, PartialEq, Eq, Structural, Hash)]
pub enum InputAction {
    MoveForward,
    MoveBackward,
    MoveLeft,
    MoveRight,
    MoveUp,
    MoveDown,
    ToggleLightDebug,
    ToggleCollisionDebug,
    SwitchDemo1,
    SwitchDemo2,
    ReleaseMouse,
    Interact,
}

/// A set of keys.
#[derive(Debug)]
pub struct KeySet {
    keys: Vec<KeyCode>,
}

impl View for KeySet {
    type V = Set<KeyCode>;

    closed spec fn view(&self) -> Set<KeyCode> {
        self.keys@.to_set()
    }
}

impl KeySet {
    #[verifier::type_invariant]
    closed spec fn well_formed(&self) -> bool {
        self.keys@.no_duplicates()
    }

    /// No key.
    pub fn new() -> (s: KeySet)
        ensures
            s@ == Set::<KeyCode>::empty(),
    {
        let s = KeySet { keys: Vec::new() };
        proof {
            assert(s@ =~= Set::<KeyCode>::empty());
        }
        s
    }

    fn position(&self, code: KeyCode) -> (i: usize)
        ensures
            i <= self.keys@.len(),
            i < self.keys@.len() <==> self@.contains(code),
            i < self.keys@.len() ==> self.keys@[i as int] == code,
    {
        let mut i: usize = 0;
        while i < self.keys.len()
            invariant
                i <= self.keys@.len(),
                forall|j: int| 0 <= j < i ==> self.keys@[j] != code,
            decreases self.keys@.len() - i,
        {
            if self.keys[i] == code {
                proof {
                    assert(self.keys@.contains(code));
                }
                return i;
            }
            i += 1;
        }
        i
    }

    /// Whether the key is in the set.
    pub fn contains(&self, code: KeyCode) -> (b: bool)
        ensures
            b == self@.contains(code),
    {
        self.position(code) < self.keys.len()
    }

    /// Adds a key.
    pub fn insert(&mut self, code: KeyCode)
        ensures
            final(self)@ == old(self)@.insert(code),
    {
        proof {
            use_type_invariant(&*self);
        }
        let ghost before = self@;
        let ghost keys0 = self.keys@;
        if self.contains(code) {
            proof {
                assert(before =~= before.insert(code));
            }
            return;
        }
        let mut whole = KeySet { keys: Vec::new() };
        core::mem::swap(&mut whole, self);
        let KeySet { keys: mut keys } = whole;
        keys.push(code);
        proof {
            assert(!keys0.contains(code));
            assert forall|i: int, j: int|
                0 <= i < keys@.len() && 0 <= j < keys@.len() && i != j implies keys@[i]
                != keys@[j] by {
                if i < keys0.len() {
                    assert(keys0.contains(keys0[i]));
                }
                if j < keys0.len() {
                    assert(keys0.contains(keys0[j]));
                }
            }
            assert(keys@.to_set() =~= before.insert(code)) by {
                assert forall|k: KeyCode| keys@.to_set().contains(k) == before.insert(
                    code,
                ).contains(k) by {
                    if keys0.contains(k) {
                        let i = choose|i: int| 0 <= i < keys0.len() && keys0[i] == k;
                        assert(keys@[i] == k);
                    }
                    if k == code {
                        assert(keys@[keys0.len() as int] == k);
                    }
                }
            }
        }
        *self = KeySet { keys };
    }

    /// Takes a key out.
    pub fn remove(&mut self, code: KeyCode)
        ensures
            final(self)@ == old(self)@.remove(code),
    {
        proof {
            use_type_invariant(&*self);
        }
        let ghost before = self@;
        let ghost keys0 = self.keys@;
        let i = self.position(code);
        if i >= self.keys.len() {
            proof {
                assert(before =~= before.remove(code));
            }
            return;
        }
        let mut whole = KeySet { keys: Vec::new() };
        core::mem::swap(&mut whole, self);
        let KeySet { keys: mut keys } = whole;
        keys.remove(i);
        proof {
            assert(keys@ =~= keys0.remove(i as int));
            assert forall|a: int, b: int|
                0 <= a < keys@.len() && 0 <= b < keys@.len() && a != b implies keys@[a]
                != keys@[b] by {
                let a2 = if a < i {
                    a
                } else {
                    a + 1
                };
                let b2 = if b < i {
                    b
                } else {
                    b + 1
                };
                assert(keys0[a2] != keys0[b2]);
            }
            assert(keys@.to_set() =~= before.remove(code)) by {
                assert forall|k: KeyCode| keys@.to_set().contains(k) == before.remove(
                    code,
                ).contains(k) by {
                    if keys@.contains(k) {
                        let j = choose|j: int| 0 <= j < keys@.len() && keys@[j] == k;
                        let j2 = if j < i {
                            j
                        } else {
                            j + 1
                        };
                        assert(keys0[j2] == k);
                        assert(keys0[j2] != keys0[i as int]);
                    }
                    if keys0.contains(k) && k != code {
                        let j = choose|j: int| 0 <= j < keys0.len() && keys0[j] == k;
                        let j2 = if j < i {
                            j
                        } else {
                            j - 1
                        };
                        assert(keys@[j2] == k);
                    }
                }
            }
        }
        *self = KeySet { keys };
    }

    /// The same keys again.
    pub fn copy(&self) -> (s: KeySet)
        ensures
            s@ == self@,
    {
        proof {
            use_type_invariant(self);
        }
        KeySet { keys: crate::mesh::copied(&self.keys) }
    }

    /// Number of keys.
    pub fn len(&self) -> (n: usize)
        ensures
            n == self@.len(),
            self@.finite(),
    {
        proof {
            use_type_invariant(self);
            self.keys@.unique_seq_to_set();
        }
        self.keys.len()
    }
}

/// One line of the table: an action and the keys that trigger it.
#[derive(Debug)]
pub struct Binding {
    pub action: InputAction,
    pub keys: Vec<KeyCode>,
}

/// The contents of the table.
pub type Bindings = Seq<(InputAction, Seq<KeyCode>)>;

/// Which keys trigger which actions.
#[derive(Debug)]
pub struct InputBindings {
    map: Vec<Binding>,
}

impl View for InputBindings {
    type V = Bindings;

    closed spec fn view(&self) -> Bindings {
        self.map@.map_values(|b: Binding| (b.action, b.keys@))
    }
}

/// The keys of an action: those of its first line.
pub open spec fn keys_of(b: Bindings, action: InputAction) -> Option<Seq<KeyCode>>
    decreases b.len(),
{
    if b.len() == 0 {
        None
    } else if b[0].0 == action {
        Some(b[0].1)
    } else {
        keys_of(b.skip(1), action)
    }
}

/// The action of a key: that of the first line with the key.
pub open spec fn action_of(b: Bindings, code: KeyCode) -> Option<InputAction>
    decreases b.len(),
{
    if b.len() == 0 {
        None
    } else if b[0].1.contains(code) {
        Some(b[0].0)
    } else {
        action_of(b.skip(1), code)
    }
}

/// The table once a key was bound to an action: in the first line of the action unless it is
/// there, else in a new line.
pub open spec fn bound(b: Bindings, action: InputAction, code: KeyCode) -> Bindings
    decreases b.len(),
{
    if b.len() == 0 {
        seq![(action, seq![code])]
    } else if b[0].0 == action {
        if b[0].1.contains(code) {
            b
        } else {
            b.update(0, (action, b[0].1.push(code)))
        }
    } else {
        seq![b[0]] + bound(b.skip(1), action, code)
    }
}

/// The usual table.
pub open spec fn default_bindings() -> Bindings {
    seq![
        (InputAction::MoveForward, seq![KeyCode::KeyW, KeyCode::ArrowUp]),
        (InputAction::MoveBackward, seq![KeyCode::KeyS, KeyCode::ArrowDown]),
        (InputAction::MoveLeft, seq![KeyCode::KeyA, KeyCode::ArrowLeft]),
        (InputAction::MoveRight, seq![KeyCode::KeyD, KeyCode::ArrowRight]),
        (InputAction::MoveUp, seq![KeyCode::Space]),
        (InputAction::MoveDown, seq![KeyCode::ShiftLeft]),
        (InputAction::ToggleLightDebug, seq![KeyCode::KeyL]),
        (InputAction::ToggleCollisionDebug, seq![KeyCode::KeyB]),
        (InputAction::SwitchDemo1, seq![KeyCode::F1]),
        (InputAction::SwitchDemo2, seq![KeyCode::F2]),
        (InputAction::ReleaseMouse, seq![KeyCode::Escape]),
        (InputAction::Interact, seq![KeyCode::KeyE]),
    ]
}

fn one(action: InputAction, key: KeyCode) -> (b: Binding)
    ensures
        b.action == action,
        b.keys@ == seq![key],
{
    let mut keys: Vec<KeyCode> = Vec::new();
    keys.push(key);
    proof {
        assert(keys@ =~= seq![key]);
    }
    Binding { action, keys }
}

fn two(action: InputAction, first: KeyCode, second: KeyCode) -> (b: Binding)
    ensures
        b.action == action,
        b.keys@ == seq![first, second],
{
    let mut keys: Vec<KeyCode> = Vec::new();
    keys.push(first);
    keys.push(second);
    proof {
        assert(keys@ =~= seq![first, second]);
    }
    Binding { action, keys }
}

fn has_key(keys: &Vec<KeyCode>, code: KeyCode) -> (b: bool)
    ensures
        b == keys@.contains(code),
{
    let mut i: usize = 0;
    while i < keys.len()
        invariant
            i <= keys@.len(),
            forall|j: int| 0 <= j < i ==> keys@[j] != code,
        decreases keys@.len() - i,
    {
        if keys[i] == code {
            return true;
        }
        i += 1;
    }
    false
}

impl Default for InputBindings {
    fn default() -> (b: InputBindings)
        ensures
            b@ == default_bindings(),
    {
        let mut map: Vec<Binding> = Vec::new();
        map.push(two(InputAction::MoveForward, KeyCode::KeyW, KeyCode::ArrowUp));
        map.push(two(InputAction::MoveBackward, KeyCode::KeyS, KeyCode::ArrowDown));
        map.push(two(InputAction::MoveLeft, KeyCode::KeyA, KeyCode::ArrowLeft));
        map.push(two(InputAction::MoveRight, KeyCode::KeyD, KeyCode::ArrowRight));
        map.push(one(InputAction::MoveUp, KeyCode::Space));
        map.push(one(InputAction::MoveDown, KeyCode::ShiftLeft));
        map.push(one(InputAction::ToggleLightDebug, KeyCode::KeyL));
        map.push(one(InputAction::ToggleCollisionDebug, KeyCode::KeyB));
        map.push(one(InputAction::SwitchDemo1, KeyCode::F1));
        map.push(one(InputAction::SwitchDemo2, KeyCode::F2));
        map.push(one(InputAction::ReleaseMouse, KeyCode::Escape));
        map.push(one(InputAction::Interact, KeyCode::KeyE));
        let b = InputBindings { map };
        proof {
            assert(b@ =~= default_bindings());
        }
        b
    }
}

impl InputBindings {
    /// The keys of an action; `None` where it has no line.
    pub fn keys_for(&self, action: InputAction) -> (r: Option<&Vec<KeyCode>>)
        ensures
            match r {
                Some(keys) => keys_of(self@, action) == Some(keys@),
                None => keys_of(self@, action) is None,
            },
    {
        let mut i: usize = 0;
        proof {
            assert(self@.skip(0) =~= self@);
        }
        while i < self.map.len()
            invariant
                i <= self.map@.len(),
                keys_of(self@, action) == keys_of(self@.skip(i as int), action),
            decreases self.map@.len() - i,
        {
            proof {
                assert(self@.skip(i as int)[0] == (
                    self.map@[i as int].action,
                    self.map@[i as int].keys@,
                ));
                assert(self@.skip(i as int).skip(1) =~= self@.skip(i as int + 1));
            }
            if self.map[i].action == action {
                return Some(&self.map[i].keys);
            }
            i += 1;
        }
        None
    }

    /// The action of a key; `None` where it is not bound.
    pub fn action_for(&self, code: KeyCode) -> (r: Option<InputAction>)
        ensures
            r == action_of(self@, code),
    {
        let mut i: usize = 0;
        proof {
            assert(self@.skip(0) =~= self@);
        }
        while i < self.map.len()
            invariant
                i <= self.map@.len(),
                action_of(self@, code) == action_of(self@.skip(i as int), code),
            decreases self.map@.len() - i,
        {
            proof {
                assert(self@.skip(i as int)[0] == (
                    self.map@[i as int].action,
                    self.map@[i as int].keys@,
                ));
                assert(self@.skip(i as int).skip(1) =~= self@.skip(i as int + 1));
            }
            if has_key(&self.map[i].keys, code) {
                return Some(self.map[i].action);
            }
            i += 1;
        }
        None
    }

    /// Binds a key to an action.
    pub fn bind(&mut self, action: InputAction, code: KeyCode)
        ensures
            final(self)@ == bound(old(self)@, action, code),
    {
        let ghost before = self@;
        let mut i: usize = 0;
        proof {
            assert(before.skip(0) =~= before);
            assert(before.take(0) + bound(before.skip(0), action, code) =~= bound(
                before,
                action,
                code,
            ));
        }
        while i < self.map.len()
            invariant
                *self == *old(self),
                before == self@,
                i <= self.map@.len(),
                bound(before, action, code) == before.take(i as int) + bound(
                    before.skip(i as int),
                    action,
                    code,
                ),
            decreases self.map@.len() - i,
        {
            let ghost rest = before.skip(i as int);
            proof {
                assert(rest[0] == (self.map@[i as int].action, self.map@[i as int].keys@));
                assert(rest.skip(1) =~= before.skip(i as int + 1));
            }
            if self.map[i].action == action {
                if !has_key(&self.map[i].keys, code) {
                    self.map[i].keys.push(code);
                    proof {
                        assert(self@ =~= before.take(i as int) + rest.update(
                            0,
                            (action, rest[0].1.push(code)),
                        ));
                    }
                } else {
                    proof {
                        assert(before =~= before.take(i as int) + rest);
                    }
                }
                return;
            }
            proof {
                assert(before.take(i as int) + (seq![rest[0]] + bound(rest.skip(1), action, code))
                    =~= before.take(i as int + 1) + bound(
                    before.skip(i as int + 1),
                    action,
                    code,
                ));
            }
            i += 1;
        }
        self.map.push(one(action, code));
        proof {
            assert(before.skip(i as int).len() == 0);
            assert(self@ =~= before.take(i as int) + seq![(action, seq![code])]);
        }
    }
}

/// A set of actions.
#[derive(Debug)]
pub struct ActionSet {
    actions: Vec<InputAction>,
}

impl View for ActionSet {
    type V = Set<InputAction>;

    closed spec fn view(&self) -> Set<InputAction> {
        self.actions@.to_set()
    }
}

impl ActionSet {
    /// No action.
    pub fn new() -> (s: ActionSet)
        ensures
            s@ == Set::<InputAction>::empty(),
    {
        let s = ActionSet { actions: Vec::new() };
        proof {
            assert(s@ =~= Set::<InputAction>::empty());
        }
        s
    }

    /// Whether the action is in the set.
    pub fn contains(&self, action: InputAction) -> (b: bool)
        ensures
            b == self@.contains(action),
    {
        let mut i: usize = 0;
        while i < self.actions.len()
            invariant
                i <= self.actions@.len(),
                forall|j: int| 0 <= j < i ==> self.actions@[j] != action,
            decreases self.actions@.len() - i,
        {
            if self.actions[i] == action {
                proof {
                    assert(self.actions@.contains(action));
                }
                return true;
            }
            i += 1;
        }
        false
    }

    /// Adds an action.
    pub fn insert(&mut self, action: InputAction)
        ensures
            final(self)@ == old(self)@.insert(action),
    {
        let ghost before = self@;
        let ghost list = self.actions@;
        if self.contains(action) {
            proof {
                assert(before =~= before.insert(action));
            }
            return;
        }
        self.actions.push(action);
        proof {
            assert forall|a: InputAction| self@.contains(a) == before.insert(action).contains(
                a,
            ) by {
                if list.contains(a) {
                    let i = choose|i: int| 0 <= i < list.len() && list[i] == a;
                    assert(self.actions@[i] == a);
                }
                if a == action {
                    assert(self.actions@[list.len() as int] == a);
                }
            }
            assert(self@ =~= before.insert(action));
        }
    }

    /// The actions that are in this set and not in the other.
    pub fn difference(&self, other: &ActionSet) -> (s: ActionSet)
        ensures
            s@ == self@.difference(other@),
    {
        let mut s = ActionSet::new();
        let mut i: usize = 0;
        let ghost list = self.actions@;
        while i < self.actions.len()
            invariant
                i <= list.len(),
                list == self.actions@,
                s@ =~= list.take(i as int).to_set().difference(other@),
            decreases list.len() - i,
        {
            proof {
                crate::lists::lemma_take_next(list, i as int);
            }
            if !other.contains(self.actions[i]) {
                s.insert(self.actions[i]);
            }
            proof {
                let t = list.take(i as int);
                let t2 = list.take(i as int + 1);
                assert forall|a: InputAction| s@.contains(a) == t2.to_set().difference(
                    other@,
                ).contains(a) by {
                    assert(t2.contains(a) <==> t.contains(a) || a == list[i as int]);
                }
            }
            i += 1;
        }
        proof {
            assert(list.take(i as int) =~= list);
        }
        s
    }
}

/// The actions that some keys trigger.
pub open spec fn actions_of(b: Bindings, keys: Set<KeyCode>) -> Set<InputAction> {
    Set::new(
        |a: InputAction| exists|k: KeyCode| keys.contains(k) && #[trigger] action_of(b, k) == Some(a),
    )
}

/// Which actions are held, and which were begun or ended in this tick.
#[derive(Debug)]
pub struct ActionState {
    pressed: ActionSet,
    just_pressed: ActionSet,
    just_released: ActionSet,
    prev_keys: KeySet,
}

/// The contents of the action state.
pub struct ActionModel {
    pub pressed: Set<InputAction>,
    pub just_pressed: Set<InputAction>,
    pub just_released: Set<InputAction>,
    /// The keys of the last tick.
    pub prev_keys: Set<KeyCode>,
}

impl View for ActionState {
    type V = ActionModel;

    closed spec fn view(&self) -> ActionModel {
        ActionModel {
            pressed: self.pressed@,
            just_pressed: self.just_pressed@,
            just_released: self.just_released@,
            prev_keys: self.prev_keys@,
        }
    }
}

/// The action state of a tick in which the keys `keys` are held, after one with `prev`.
pub open spec fn ticked_actions(b: Bindings, prev: Set<KeyCode>, keys: Set<KeyCode>) -> ActionModel {
    let now = actions_of(b, keys);
    let before = actions_of(b, prev);
    ActionModel {
        pressed: now,
        just_pressed: now.difference(before),
        just_released: before.difference(now),
        prev_keys: keys,
    }
}

fn triggered(bindings: &InputBindings, keys: &KeySet) -> (s: ActionSet)
    ensures
        s@ == actions_of(bindings@, keys@),
{
    let mut s = ActionSet::new();
    let mut i: usize = 0;
    let ghost list = keys.keys@;
    while i < keys.keys.len()
        invariant
            i <= list.len(),
            list == keys.keys@,
            forall|a: InputAction| #[trigger]
                s@.contains(a) <==> exists|j: int|
                    0 <= j < i && action_of(bindings@, #[trigger] list[j]) == Some(a),
        decreases list.len() - i,
    {
        let ghost before = s@;
        if let Some(action) = bindings.action_for(keys.keys[i]) {
            s.insert(action);
        }
        proof {
            assert forall|a: InputAction| #[trigger] s@.contains(a) <==> exists|j: int|
                0 <= j < i + 1 && action_of(bindings@, #[trigger] list[j]) == Some(a) by {
                if before.contains(a) {
                    let j = choose|j: int|
                        0 <= j < i && action_of(bindings@, #[trigger] list[j]) == Some(a);
                    assert(action_of(bindings@, list[j]) == Some(a));
                }
                if s@.contains(a) && !before.contains(a) {
                    assert(action_of(bindings@, list[i as int]) == Some(a));
                }
                if exists|j: int|
                    0 <= j < i + 1 && action_of(bindings@, #[trigger] list[j]) == Some(a) {
                    let j = choose|j: int|
                        0 <= j < i + 1 && action_of(bindings@, #[trigger] list[j]) == Some(a);
                    if j < i {
                        assert(before.contains(a));
                    }
                }
            }
        }
        i += 1;
    }
    proof {
        assert forall|a: InputAction| s@.contains(a) == actions_of(bindings@, keys@).contains(
            a,
        ) by {
            if s@.contains(a) {
                let j = choose|j: int|
                    0 <= j < list.len() && action_of(bindings@, #[trigger] list[j]) == Some(a);
                assert(keys@.contains(list[j]));
            }
            if actions_of(bindings@, keys@).contains(a) {
                let k = choose|k: KeyCode|
                    keys@.contains(k) && #[trigger] action_of(bindings@, k) == Some(a);
                let j = choose|j: int| 0 <= j < list.len() && list[j] == k;
                assert(action_of(bindings@, list[j]) == Some(a));
            }
        }
        assert(s@ =~= actions_of(bindings@, keys@));
    }
    s
}

impl ActionState {
    /// Nothing is held.
    pub fn new() -> (s: ActionState)
        ensures
            s@.pressed == Set::<InputAction>::empty(),
            s@.just_pressed == Set::<InputAction>::empty(),
            s@.just_released == Set::<InputAction>::empty(),
            s@.prev_keys == Set::<KeyCode>::empty(),
    {
        ActionState {
            pressed: ActionSet::new(),
            just_pressed: ActionSet::new(),
            just_released: ActionSet::new(),
            prev_keys: KeySet::new(),
        }
    }

    /// Whether the action is held.
    pub fn pressed(&self, action: InputAction) -> (b: bool)
        ensures
            b == self@.pressed.contains(action),
    {
        self.pressed.contains(action)
    }

    /// Whether the action was begun in this tick.
    pub fn just_pressed(&self, action: InputAction) -> (b: bool)
        ensures
            b == self@.just_pressed.contains(action),
    {
        self.just_pressed.contains(action)
    }

    /// Whether the action was ended in this tick.
    pub fn just_released(&self, action: InputAction) -> (b: bool)
        ensures
            b == self@.just_released.contains(action),
    {
        self.just_released.contains(action)
    }

    /// Takes the keys of a tick: finds the actions that are held, and by comparison with the last
    /// tick those that were begun or ended.
    pub fn bind_input(&mut self, bindings: &InputBindings, keys: &KeySet)
        ensures
            final(self)@ == ticked_actions(bindings@, old(self)@.prev_keys, keys@),
    {
        let pressed_now = triggered(bindings, keys);
        let prev_actions = triggered(bindings, &self.prev_keys);
        self.just_pressed = pressed_now.difference(&prev_actions);
        self.just_released = prev_actions.difference(&pressed_now);
        self.pressed = pressed_now;
        self.prev_keys = keys.copy();
    }
}

/// Actions begin and end only when keys change: while the same keys are held nothing begins or
/// ends, nothing begins and ends at once, and what is held was held before or has just begun.
pub proof fn edges_only_on_change(b: Bindings, prev: Set<KeyCode>, keys: Set<KeyCode>)
    ensures
        ({
            let t = ticked_actions(b, prev, keys);
            &&& keys == prev ==> t.just_pressed == Set::<InputAction>::empty() && t.just_released
                == Set::<InputAction>::empty()
            &&& t.just_pressed.disjoint(t.just_released)
            &&& t.just_pressed.subset_of(t.pressed)
            &&& t.just_released.disjoint(t.pressed)
            &&& t.pressed == actions_of(b, prev).difference(t.just_released).union(t.just_pressed)
        }),
{
    let t = ticked_actions(b, prev, keys);
    if keys == prev {
        assert(t.just_pressed =~= Set::<InputAction>::empty());
        assert(t.just_released =~= Set::<InputAction>::empty());
    }
    assert(t.pressed =~= actions_of(b, prev).difference(t.just_released).union(t.just_pressed));
}

/// A key that was bound to an action is among its keys, binding it again changes nothing, and the
/// actions of other keys stay.
pub proof fn binding_is_exact(b: Bindings, action: InputAction, code: KeyCode, other: KeyCode)
    ensures
        keys_of(bound(b, action, code), action) is Some,
        keys_of(bound(b, action, code), action)->0.contains(code),
        bound(bound(b, action, code), action, code) == bound(b, action, code),
        other != code ==> action_of(bound(b, action, code), other) == action_of(b, other),
        action_of(b, code) is None ==> action_of(bound(b, action, code), code) == Some(action),
    decreases b.len(),
{
    let r = bound(b, action, code);
    reveal_with_fuel(action_of, 2);
    if b.len() == 0 {
        assert(r[0].1[0] == code);
        assert(r[0].1.contains(code));
        if other != code {
            assert(!r[0].1.contains(other));
            assert(r.skip(1).len() == 0);
        }
    } else if b[0].0 == action {
        if !b[0].1.contains(code) {
            let keys = b[0].1.push(code);
            assert(keys[b[0].1.len() as int] == code);
            assert(r[0].1 == keys);
            assert(keys.contains(code));
            assert(r.skip(1) =~= b.skip(1));
            assert(keys.contains(other) <==> b[0].1.contains(other) || other == code) by {
                if b[0].1.contains(other) {
                    let i = choose|i: int| 0 <= i < b[0].1.len() && b[0].1[i] == other;
                    assert(keys[i] == other);
                }
            }
        }
    } else {
        binding_is_exact(b.skip(1), action, code, other);
        let rest = bound(b.skip(1), action, code);
        assert(r[0] == b[0]);
        assert(r.skip(1) =~= rest);
        assert(bound(r, action, code) =~= seq![b[0]] + rest);
    }
}

/// A key triggers the action of the first binding that has it, and none where no binding does.
pub proof fn keys_trigger_the_first_binding_that_has_them(b: Bindings, code: KeyCode, i: int)
    requires
        0 <= i < b.len(),
    ensures
        b[i].1.contains(code) && (forall|j: int| 0 <= j < i ==> !(#[trigger] b[j]).1.contains(code))
            ==> action_of(b, code) == Some(b[i].0),
        (forall|j: int| 0 <= j < b.len() ==> !(#[trigger] b[j]).1.contains(code)) ==> action_of(
            b,
            code,
        ) is None,
    decreases b.len(),
{
    let rest = b.skip(1);
    assert forall|j: int| 0 <= j < rest.len() implies #[trigger] rest[j] == b[j + 1] by {}
    if i > 0 {
        keys_trigger_the_first_binding_that_has_them(rest, code, i - 1);
        assert(rest[i - 1] == b[i]);
    } else if rest.len() > 0 {
        keys_trigger_the_first_binding_that_has_them(rest, code, 0);
    }
    assert(b[0] == b[0]);
}

/// The keys of an action are those of its first binding; there are none without one.
pub proof fn actions_have_the_keys_of_their_first_binding(b: Bindings, action: InputAction, i: int)
    requires
        0 <= i < b.len(),
    ensures
        b[i].0 == action && (forall|j: int| 0 <= j < i ==> (#[trigger] b[j]).0 != action)
            ==> keys_of(b, action) == Some(b[i].1),
        (forall|j: int| 0 <= j < b.len() ==> (#[trigger] b[j]).0 != action) ==> keys_of(
            b,
            action,
        ) is None,
    decreases b.len(),
{
    let rest = b.skip(1);
    assert forall|j: int| 0 <= j < rest.len() implies #[trigger] rest[j] == b[j + 1] by {}
    if i > 0 {
        actions_have_the_keys_of_their_first_binding(rest, action, i - 1);
        assert(rest[i - 1] == b[i]);
    } else if rest.len() > 0 {
        actions_have_the_keys_of_their_first_binding(rest, action, 0);
    }
    assert(b[0] == b[0]);
}

/// Binding a key to an action puts it behind the keys that the action has, unless it has it; the
/// keys of all other actions stay.
pub proof fn binding_adds_one_key(
    b: Bindings,
    action: InputAction,
    code: KeyCode,
    other: InputAction,
)
    ensures
        keys_of(b, action) is None ==> keys_of(bound(b, action, code), action) == Some(seq![code]),
        keys_of(b, action) matches Some(keys) ==> keys_of(bound(b, action, code), action) == Some(
            if keys.contains(code) {
                keys
            } else {
                keys.push(code)
            },
        ),
        other != action ==> keys_of(bound(b, action, code), other) == keys_of(b, other),
    decreases b.len(),
{
    let after = bound(b, action, code);
    reveal_with_fuel(keys_of, 2);
    if b.len() == 0 {
        assert(after[0] == (action, seq![code]));
        assert(after.skip(1) =~= Seq::<(InputAction, Seq<KeyCode>)>::empty());
    } else if b[0].0 == action {
        assert(after.skip(1) =~= b.skip(1));
    } else {
        binding_adds_one_key(b.skip(1), action, code, other);
        assert(after[0] == b[0]);
        assert(after.skip(1) =~= bound(b.skip(1), action, code));
    }
}

/// An action is pressed while one of the keys that trigger it is held; it was just pressed where it
/// is pressed now and was not at the last tick, and just released the other way round.
pub proof fn actions_follow_the_held_keys(
    b: Bindings,
    prev: Set<KeyCode>,
    keys: Set<KeyCode>,
    a: InputAction,
)
    ensures
        ({
            let t = ticked_actions(b, prev, keys);
            let now = exists|k: KeyCode| keys.contains(k) && #[trigger] action_of(b, k) == Some(a);
            let before = exists|k: KeyCode|
                prev.contains(k) && #[trigger] action_of(b, k) == Some(a);
            &&& t.pressed.contains(a) <==> now
            &&& t.just_pressed.contains(a) <==> now && !before
            &&& t.just_released.contains(a) <==> before && !now
            &&& t.prev_keys == keys
        }),
{
}

/// The keys of every action at the start: letters and arrows move, the space bar and shift rise and
/// sink, and one key each does everything else.
pub proof fn every_action_has_its_keys_at_the_start(action: InputAction)
    ensures
        keys_of(default_bindings(), action) == Some(
            match action {
                InputAction::MoveForward => seq![KeyCode::KeyW, KeyCode::ArrowUp],
                InputAction::MoveBackward => seq![KeyCode::KeyS, KeyCode::ArrowDown],
                InputAction::MoveLeft => seq![KeyCode::KeyA, KeyCode::ArrowLeft],
                InputAction::MoveRight => seq![KeyCode::KeyD, KeyCode::ArrowRight],
                InputAction::MoveUp => seq![KeyCode::Space],
                InputAction::MoveDown => seq![KeyCode::ShiftLeft],
                InputAction::ToggleLightDebug => seq![KeyCode::KeyL],
                InputAction::ToggleCollisionDebug => seq![KeyCode::KeyB],
                InputAction::SwitchDemo1 => seq![KeyCode::F1],
                InputAction::SwitchDemo2 => seq![KeyCode::F2],
                InputAction::ReleaseMouse => seq![KeyCode::Escape],
                InputAction::Interact => seq![KeyCode::KeyE],
            },
        ),
{
    let b = default_bindings();
    let i: int = match action {
        InputAction::MoveForward => 0,
        InputAction::MoveBackward => 1,
        InputAction::MoveLeft => 2,
        InputAction::MoveRight => 3,
        InputAction::MoveUp => 4,
        InputAction::MoveDown => 5,
        InputAction::ToggleLightDebug => 6,
        InputAction::ToggleCollisionDebug => 7,
        InputAction::SwitchDemo1 => 8,
        InputAction::SwitchDemo2 => 9,
        InputAction::ReleaseMouse => 10,
        InputAction::Interact => 11,
    };
    assert(b.len() == 12);
    assert(b[i].0 == action);
    assert forall|j: int| 0 <= j < i implies (#[trigger] b[j]).0 != action by {}
    actions_have_the_keys_of_their_first_binding(b, action, i);
}

} // verus!
