//! Input state — keyboard and mouse-button state per frame, and named
//! actions whose state advances once per fixed tick.

use vstd::prelude::*;
use std::collections::HashMap;
use crate::dispatch::str_eq;

verus! {

broadcast use vstd::std_specs::hash::group_hash_axioms;

/// A binding that triggers an action.
#[derive(Debug, Clone, Copy, PartialEq, Eq, Structural)]
pub enum ActionBinding {
    /// Keyboard key, by its physical key code.
    Key(u32),
    /// Mouse button (0=left, 1=middle, 2=right).
    MouseButton(u8),
}

/// Which mouse axis to read.
#[derive(Debug, Clone, Copy, PartialEq, Eq, Structural)]
pub enum MouseAxis {
    X,
    Y,
}

/// Current state of an action.
#[derive(Debug, Clone, Copy, PartialEq, Eq, Structural)]
pub enum ActionState {
    /// Not pressed.
    Idle,
    /// Just pressed this tick.
    JustPressed,
    /// Held down (was JustPressed last tick).
    Held,
    /// Just released this tick.
    JustReleased,
}

impl ActionState {
    pub fn is_just_pressed(self) -> (r: bool)
        ensures
            r == (self == ActionState::JustPressed),
    {
        self == ActionState::JustPressed
    }

    pub fn is_held(self) -> (r: bool)
        ensures
            r == (self == ActionState::JustPressed || self == ActionState::Held),
    {
        match self {
            ActionState::JustPressed | ActionState::Held => true,
            _ => false,
        }
    }

    pub fn is_just_released(self) -> (r: bool)
        ensures
            r == (self == ActionState::JustReleased),
    {
        self == ActionState::JustReleased
    }
}

/// Whether a key/flag map marks `k` (a missing key reads as `false`).
pub open spec fn flag(m: Map<u32, bool>, k: u32) -> bool {
    m.contains_key(k) && m[k]
}

/// Whether button `b` is marked (an index past the buttons reads as `false`).
pub open spec fn button_flag(bs: [bool; 3], b: u8) -> bool {
    b < 3 && bs@[b as int]
}

/// No button is marked.
pub open spec fn no_buttons(bs: [bool; 3]) -> bool {
    !bs@[0] && !bs@[1] && !bs@[2]
}

/// Whether binding `b` is marked in the given key map and button flags.
pub open spec fn binding_on(b: ActionBinding, keys: Map<u32, bool>, buttons: [bool; 3]) -> bool {
    match b {
        ActionBinding::Key(k) => flag(keys, k),
        ActionBinding::MouseButton(m) => button_flag(buttons, m),
    }
}

/// Whether some binding of `bs` is marked.
pub open spec fn any_on(bs: Seq<ActionBinding>, keys: Map<u32, bool>, buttons: [bool; 3]) -> bool {
    exists|i: int| 0 <= i < bs.len() && binding_on(#[trigger] bs[i], keys, buttons)
}

/// The raw input an action's next state is computed from.
pub struct RawInput {
    pub down: Map<u32, bool>,
    pub pressed: Map<u32, bool>,
    pub released: Map<u32, bool>,
    pub buttons_down: [bool; 3],
    pub buttons_pressed: [bool; 3],
    pub buttons_released: [bool; 3],
}

/// An action's state after a tick: just pressed wins over just released,
/// which wins over held; otherwise idle.
pub open spec fn next_action_state(bs: Seq<ActionBinding>, raw: RawInput) -> ActionState {
    if any_on(bs, raw.pressed, raw.buttons_pressed) {
        ActionState::JustPressed
    } else if any_on(bs, raw.released, raw.buttons_released) {
        ActionState::JustReleased
    } else if any_on(bs, raw.down, raw.buttons_down) {
        ActionState::Held
    } else {
        ActionState::Idle
    }
}

/// The state of the action named `name` in `acts` (distinct names), if bound.
pub open spec fn state_of(acts: Seq<(Seq<char>, Seq<ActionBinding>, ActionState)>, name: Seq<char>) -> Option<ActionState> {
    if exists|k: int| 0 <= k < acts.len() && (#[trigger] acts[k]).0 == name {
        let k = choose|k: int| 0 <= k < acts.len() && (#[trigger] acts[k]).0 == name;
        Some(acts[k].2)
    } else {
        None
    }
}

/// No name occurs twice.
pub open spec fn distinct_names(acts: Seq<(Seq<char>, Seq<ActionBinding>, ActionState)>) -> bool {
    forall|i: int, j: int| 0 <= i < j < acts.len() ==> (#[trigger] acts[i]).0 != (#[trigger] acts[j]).0
}

/// Manages keyboard/mouse-button state and action bindings.
pub struct InputManager {
    /// Named actions and their bindings.
    actions: Vec<(String, Vec<ActionBinding>)>,
    /// Current state per action, by position in `actions`.
    action_states: Vec<ActionState>,
    /// Currently pressed keyboard keys.
    keys_down: HashMap<u32, bool>,
    /// Keys that were pressed this frame (for JustPressed detection).
    keys_just_pressed: HashMap<u32, bool>,
    /// Keys that were released this frame (for JustReleased detection).
    keys_just_released: HashMap<u32, bool>,
    /// Currently pressed mouse buttons.
    mouse_buttons_down: [bool; 3],
    /// Mouse buttons just pressed this frame.
    mouse_buttons_just_pressed: [bool; 3],
    /// Mouse buttons just released this frame.
    mouse_buttons_just_released: [bool; 3],
    /// Number of fixed ticks in the current frame.
    frame_tick_count: u32,
    /// Whether the cursor should be grabbed (confined + hidden) for mouse-look.
    cursor_grab: bool,
}

impl InputManager {
    /// The actions, by name, bindings and state.
    pub closed spec fn actions(&self) -> Seq<(Seq<char>, Seq<ActionBinding>, ActionState)> {
        Seq::new(self.actions@.len(), |i: int| (self.actions@[i].0@, self.actions@[i].1@, self.action_states@[i]))
    }

    /// The raw key and button state.
    pub closed spec fn raw(&self) -> RawInput {
        RawInput {
            down: self.keys_down@,
            pressed: self.keys_just_pressed@,
            released: self.keys_just_released@,
            buttons_down: self.mouse_buttons_down,
            buttons_pressed: self.mouse_buttons_just_pressed,
            buttons_released: self.mouse_buttons_just_released,
        }
    }

    /// Ticks of the current frame.
    pub closed spec fn tick_count(&self) -> u32 {
        self.frame_tick_count
    }

    /// Whether the cursor is to be grabbed.
    pub closed spec fn grab(&self) -> bool {
        self.cursor_grab
    }

    /// Action names are distinct.
    pub open spec fn wf(&self) -> bool {
        &&& distinct_names(self.actions())
        &&& self.states_aligned()
    }

    /// Every action has a state.
    pub closed spec fn states_aligned(&self) -> bool {
        self.action_states@.len() == self.actions@.len()
    }

    /// No input, no actions, one tick per frame.
    pub fn new() -> (m: Self)
        ensures
            m.wf(),
            m.actions().len() == 0,
            m.raw().down == Map::<u32, bool>::empty(),
            m.raw().pressed == Map::<u32, bool>::empty(),
            m.raw().released == Map::<u32, bool>::empty(),
            no_buttons(m.raw().buttons_down),
            no_buttons(m.raw().buttons_pressed),
            no_buttons(m.raw().buttons_released),
            m.tick_count() == 1,
            !m.grab(),
    {
        let m = InputManager {
            actions: Vec::new(),
            action_states: Vec::new(),
            keys_down: HashMap::new(),
            keys_just_pressed: HashMap::new(),
            keys_just_released: HashMap::new(),
            mouse_buttons_down: [false; 3],
            mouse_buttons_just_pressed: [false; 3],
            mouse_buttons_just_released: [false; 3],
            frame_tick_count: 1,
            cursor_grab: false,
        };
        assert(m.actions() =~= Seq::<(Seq<char>, Seq<ActionBinding>, ActionState)>::empty());
        m
    }

    /// Position of the action named `name`.
    fn action_index(&self, name: &str) -> (r: Option<usize>)
        requires
            self.wf(),
        ensures
            r is None ==> state_of(self.actions(), name@) is None,
            r matches Some(i) ==> i < self.actions().len() && self.actions()[i as int].0 == name@
                && state_of(self.actions(), name@) == Some(self.actions()[i as int].2),
    {
        let mut i: usize = 0;
        while i < self.actions.len()
            invariant
                self.wf(),
                self.actions().len() == self.actions@.len(),
                i <= self.actions@.len(),
                forall|j: int| 0 <= j < i ==> (#[trigger] self.actions()[j]).0 != name@,
            decreases self.actions@.len() - i,
        {
            if str_eq(self.actions[i].0.as_str(), name) {
                proof {
                    let acts = self.actions();
                    assert(acts[i as int].0 == name@);
                    let k = choose|k: int| 0 <= k < acts.len() && (#[trigger] acts[k]).0 == name@;
                    if k < i {
                        assert(acts[k].0 != name@);
                    } else if k > i {
                        assert(acts[i as int].0 != acts[k].0);
                    }
                }
                return Some(i);
            }
            i = i + 1;
        }
        None
    }

    /// Bind a named action to an input; a new action starts idle.
    pub fn bind_action(&mut self, name: &str, binding: ActionBinding)
        requires
            old(self).wf(),
        ensures
            final(self).wf(),
            final(self).raw() == old(self).raw(),
            final(self).tick_count() == old(self).tick_count(),
            final(self).grab() == old(self).grab(),
            match state_of(old(self).actions(), name@) {
                Some(st) => exists|i: int| 0 <= i < old(self).actions().len()
                    && old(self).actions()[i].0 == name@
                    && final(self).actions() == old(self).actions().update(i,
                        (name@, old(self).actions()[i].1.push(binding), st)),
                None => final(self).actions() == old(self).actions().push((name@, seq![binding], ActionState::Idle)),
            },
    {
        let ghost acts0 = self.actions();
        match self.action_index(name) {
            Some(i) => {
                let (n, mut bs) = self.actions.remove(i);
                bs.push(binding);
                self.actions.insert(i, (n, bs));
                proof {
                    let acts = self.actions();
                    assert(acts =~= acts0.update(i as int, (name@, acts0[i as int].1.push(binding), acts0[i as int].2)));
                    assert forall|x: int, y: int| 0 <= x < y < acts.len() implies (#[trigger] acts[x]).0 != (#[trigger] acts[y]).0 by {
                        assert(acts[x].0 == acts0[x].0);
                        assert(acts[y].0 == acts0[y].0);
                    }
                }
            },
            None => {
                let mut bindings: Vec<ActionBinding> = Vec::new();
                bindings.push(binding);
                self.actions.push((name.to_owned(), bindings));
                self.action_states.push(ActionState::Idle);
                proof {
                    let acts = self.actions();
                    assert(bindings@ =~= seq![binding]);
                    assert(acts =~= acts0.push((name@, seq![binding], ActionState::Idle)));
                    assert forall|x: int, y: int| 0 <= x < y < acts.len() implies (#[trigger] acts[x]).0 != (#[trigger] acts[y]).0 by {
                        assert(acts[x].0 == acts0[x].0);
                        if y < acts0.len() {
                            assert(acts[y].0 == acts0[y].0);
                        }
                    }
                }
            },
        }
    }

    /// Whether the action was just pressed this tick.
    pub fn just_pressed(&self, name: &str) -> (r: bool)
        requires
            self.wf(),
        ensures
            r == (state_of(self.actions(), name@) == Some(ActionState::JustPressed)),
    {
        match self.action_index(name) {
            Some(i) => self.action_states[i].is_just_pressed(),
            None => false,
        }
    }

    /// Whether the action is currently held (pressed or just pressed).
    pub fn held(&self, name: &str) -> (r: bool)
        requires
            self.wf(),
        ensures
            r == (state_of(self.actions(), name@) == Some(ActionState::JustPressed)
                || state_of(self.actions(), name@) == Some(ActionState::Held)),
    {
        match self.action_index(name) {
            Some(i) => self.action_states[i].is_held(),
            None => false,
        }
    }

    /// Whether the action was just released this tick.
    pub fn just_released(&self, name: &str) -> (r: bool)
        requires
            self.wf(),
        ensures
            r == (state_of(self.actions(), name@) == Some(ActionState::JustReleased)),
    {
        match self.action_index(name) {
            Some(i) => self.action_states[i].is_just_released(),
            None => false,
        }
    }

    /// Whether a specific key is currently held down.
    pub fn is_key_down(&self, key: u32) -> (r: bool)
        ensures
            r == flag(self.raw().down, key),
    {
        match self.keys_down.get(&key) {
            Some(v) => *v,
            None => false,
        }
    }

    /// Whether a specific key was just pressed this frame.
    pub fn just_pressed_key(&self, key: u32) -> (r: bool)
        ensures
            r == flag(self.raw().pressed, key),
    {
        match self.keys_just_pressed.get(&key) {
            Some(v) => *v,
            None => false,
        }
    }

    /// Set whether the cursor should be grabbed (confined + hidden) for mouse-look.
    pub fn set_cursor_grab(&mut self, grab: bool)
        ensures
            final(self).grab() == grab,
            final(self).actions() == old(self).actions(),
            final(self).raw() == old(self).raw(),
            final(self).tick_count() == old(self).tick_count(),
    {
        self.cursor_grab = grab;
    }

    /// Whether the cursor is currently grabbed.
    pub fn cursor_grabbed(&self) -> (r: bool)
        ensures
            r == self.grab(),
    {
        self.cursor_grab
    }

    /// Whether a mouse button is currently held (0=left, 1=middle, 2=right).
    pub fn is_mouse_button_down(&self, button: u8) -> (r: bool)
        ensures
            r == button_flag(self.raw().buttons_down, button),
    {
        if button < 3 {
            self.mouse_buttons_down[button as usize]
        } else {
            false
        }
    }

    /// A key went down or up. A press of a key that is not already down marks
    /// it just pressed (repeats do not); a release marks it just released.
    pub fn handle_key_event(&mut self, code: u32, pressed: bool)
        ensures
            final(self).actions() == old(self).actions(),
            final(self).tick_count() == old(self).tick_count(),
            final(self).grab() == old(self).grab(),
            final(self).raw().buttons_down == old(self).raw().buttons_down,
            final(self).raw().buttons_pressed == old(self).raw().buttons_pressed,
            final(self).raw().buttons_released == old(self).raw().buttons_released,
            final(self).raw().down == old(self).raw().down.insert(code, pressed),
            pressed ==> final(self).raw().pressed == (if flag(old(self).raw().down, code) {
                old(self).raw().pressed
            } else {
                old(self).raw().pressed.insert(code, true)
            }),
            pressed ==> final(self).raw().released == old(self).raw().released,
            !pressed ==> final(self).raw().pressed == old(self).raw().pressed,
            !pressed ==> final(self).raw().released == old(self).raw().released.insert(code, true),
    {
        if pressed {
            let was_down = match self.keys_down.get(&code) {
                Some(v) => *v,
                None => false,
            };
            if !was_down {
                self.keys_just_pressed.insert(code, true);
            }
            self.keys_down.insert(code, true);
        } else {
            self.keys_down.insert(code, false);
            self.keys_just_released.insert(code, true);
        }
    }

    /// A mouse button went down or up; buttons past the third are ignored.
    pub fn handle_mouse_button(&mut self, button: u8, pressed: bool)
        ensures
            final(self).actions() == old(self).actions(),
            final(self).tick_count() == old(self).tick_count(),
            final(self).grab() == old(self).grab(),
            final(self).raw().down == old(self).raw().down,
            final(self).raw().pressed == old(self).raw().pressed,
            final(self).raw().released == old(self).raw().released,
            button >= 3 ==> final(self).raw() == old(self).raw(),
            button < 3 ==> {
                let b = button as int;
                let was = old(self).raw().buttons_down@[b];
                &&& final(self).raw().buttons_down@ == old(self).raw().buttons_down@.update(b, pressed)
                &&& final(self).raw().buttons_pressed@ == (if pressed && !was {
                    old(self).raw().buttons_pressed@.update(b, true)
                } else {
                    old(self).raw().buttons_pressed@
                })
                &&& final(self).raw().buttons_released@ == (if !pressed && was {
                    old(self).raw().buttons_released@.update(b, true)
                } else {
                    old(self).raw().buttons_released@
                })
            },
    {
        if button < 3 {
            let b = button as usize;
            let was = self.mouse_buttons_down[b];
            if pressed && !was {
                self.mouse_buttons_just_pressed.set(b, true);
            } else if !pressed && was {
                self.mouse_buttons_just_released.set(b, true);
            }
            self.mouse_buttons_down.set(b, pressed);
        }
    }

    /// Clear all key and mouse button state, and set every action idle.
    /// Called on focus loss to prevent stuck keys when the compositor
    /// swallows release events.
    pub fn clear_all_state(&mut self)
        requires
            old(self).wf(),
        ensures
            final(self).wf(),
            final(self).raw().down == Map::<u32, bool>::empty(),
            final(self).raw().pressed == Map::<u32, bool>::empty(),
            final(self).raw().released == Map::<u32, bool>::empty(),
            no_buttons(final(self).raw().buttons_down),
            no_buttons(final(self).raw().buttons_pressed),
            no_buttons(final(self).raw().buttons_released),
            final(self).actions().len() == old(self).actions().len(),
            forall|i: int| 0 <= i < final(self).actions().len() ==> (#[trigger] final(self).actions()[i])
                == (old(self).actions()[i].0, old(self).actions()[i].1, ActionState::Idle),
            final(self).tick_count() == old(self).tick_count(),
            final(self).grab() == old(self).grab(),
    {
        self.keys_down.clear();
        self.keys_just_pressed.clear();
        self.keys_just_released.clear();
        self.mouse_buttons_down = [false; 3];
        self.mouse_buttons_just_pressed = [false; 3];
        self.mouse_buttons_just_released = [false; 3];
        let ghost acts0 = self.actions();
        let mut i: usize = 0;
        while i < self.action_states.len()
            invariant
                acts0 == old(self).actions(),
                self.states_aligned(),
                self.actions@ == old(self).actions@,
                self.actions().len() == acts0.len(),
                i <= acts0.len(),
                forall|j: int| 0 <= j < i ==> (#[trigger] self.actions()[j]) == (acts0[j].0, acts0[j].1, ActionState::Idle),
                forall|j: int| i <= j < acts0.len() ==> (#[trigger] self.actions()[j]) == acts0[j],
                self.raw().down == Map::<u32, bool>::empty(),
                self.raw().pressed == Map::<u32, bool>::empty(),
                self.raw().released == Map::<u32, bool>::empty(),
                no_buttons(self.raw().buttons_down),
                no_buttons(self.raw().buttons_pressed),
                no_buttons(self.raw().buttons_released),
                self.tick_count() == old(self).tick_count(),
                self.grab() == old(self).grab(),
            decreases acts0.len() - i,
        {
            let ghost prev = self.actions();
            self.action_states.set(i, ActionState::Idle);
            proof {
                assert forall|j: int| 0 <= j < acts0.len() implies (#[trigger] self.actions()[j])
                    == (if j == i { (acts0[j].0, acts0[j].1, ActionState::Idle) } else { prev[j] }) by {
                    assert(self.actions()[j] == (self.actions@[j].0@, self.actions@[j].1@, self.action_states@[j]));
                    assert(prev[j].0 == self.actions@[j].0@ && prev[j].1 == self.actions@[j].1@);
                }
            }
            i = i + 1;
        }
        proof {
            let acts = self.actions();
            assert forall|x: int, y: int| 0 <= x < y < acts.len() implies (#[trigger] acts[x]).0 != (#[trigger] acts[y]).0 by {
                assert(acts[x].0 == acts0[x].0);
                assert(acts[y].0 == acts0[y].0);
            }
        }
    }

    /// Called once per frame before the fixed tick loop: record how many
    /// ticks the frame runs.
    pub fn begin_frame(&mut self, tick_count: u32)
        ensures
            final(self).tick_count() == tick_count,
            final(self).actions() == old(self).actions(),
            final(self).raw() == old(self).raw(),
            final(self).grab() == old(self).grab(),
    {
        self.frame_tick_count = tick_count;
    }

    /// Called at the start of each fixed tick: every action takes the state
    /// its bindings give from the raw input.
    pub fn pre_update(&mut self)
        requires
            old(self).wf(),
        ensures
            final(self).wf(),
            final(self).actions().len() == old(self).actions().len(),
            forall|i: int| 0 <= i < final(self).actions().len() ==> (#[trigger] final(self).actions()[i]) == (
                old(self).actions()[i].0,
                old(self).actions()[i].1,
                next_action_state(old(self).actions()[i].1, old(self).raw()),
            ),
            final(self).raw() == old(self).raw(),
            final(self).tick_count() == old(self).tick_count(),
            final(self).grab() == old(self).grab(),
    {
        let ghost acts0 = self.actions();
        let ghost raw = self.raw();
        let mut i: usize = 0;
        while i < self.action_states.len()
            invariant
                acts0 == old(self).actions(),
                raw == old(self).raw(),
                self.raw() == raw,
                self.states_aligned(),
                self.actions@ == old(self).actions@,
                self.actions().len() == acts0.len(),
                i <= acts0.len(),
                forall|j: int| 0 <= j < i ==> (#[trigger] self.actions()[j]) == (acts0[j].0, acts0[j].1, next_action_state(acts0[j].1, raw)),
                forall|j: int| i <= j < acts0.len() ==> (#[trigger] self.actions()[j]) == acts0[j],
                self.tick_count() == old(self).tick_count(),
                self.grab() == old(self).grab(),
            decreases acts0.len() - i,
        {
            let ghost prev = self.actions();
            assert(prev[i as int].1 == self.actions@[i as int].1@);
            let pressed = any_binding_on(&self.actions[i].1, &self.keys_just_pressed, &self.mouse_buttons_just_pressed);
            let released = any_binding_on(&self.actions[i].1, &self.keys_just_released, &self.mouse_buttons_just_released);
            let held = any_binding_on(&self.actions[i].1, &self.keys_down, &self.mouse_buttons_down);
            let st = if pressed {
                ActionState::JustPressed
            } else if released {
                ActionState::JustReleased
            } else if held {
                ActionState::Held
            } else {
                ActionState::Idle
            };
            self.action_states.set(i, st);
            proof {
                assert forall|j: int| 0 <= j < acts0.len() implies (#[trigger] self.actions()[j])
                    == (if j == i { (acts0[j].0, acts0[j].1, next_action_state(acts0[j].1, raw)) } else { prev[j] }) by {
                    assert(self.actions()[j] == (self.actions@[j].0@, self.actions@[j].1@, self.action_states@[j]));
                    assert(prev[j].0 == self.actions@[j].0@ && prev[j].1 == self.actions@[j].1@);
                }
            }
            i = i + 1;
        }
        proof {
            let acts = self.actions();
            assert forall|x: int, y: int| 0 <= x < y < acts.len() implies (#[trigger] acts[x]).0 != (#[trigger] acts[y]).0 by {
                assert(acts[x].0 == acts0[x].0);
                assert(acts[y].0 == acts0[y].0);
            }
        }
    }

    /// Called at the end of each fixed tick. The just-pressed and
    /// just-released marks persist for all ticks of the frame (they are
    /// cleared in `end_frame`), so nothing changes here.
    pub fn post_update(&mut self)
        ensures
            *final(self) == *old(self),
    {
    }

    /// Called once per frame after the fixed tick loop: clear the
    /// just-pressed and just-released marks, but only if a tick ran, so that
    /// events are not dropped in frames where no fixed tick executes.
    pub fn end_frame(&mut self)
        ensures
            final(self).actions() == old(self).actions(),
            final(self).tick_count() == old(self).tick_count(),
            final(self).grab() == old(self).grab(),
            final(self).raw().down == old(self).raw().down,
            final(self).raw().buttons_down == old(self).raw().buttons_down,
            old(self).tick_count() == 0 ==> final(self).raw() == old(self).raw(),
            old(self).tick_count() > 0 ==> {
                &&& final(self).raw().pressed == Map::<u32, bool>::empty()
                &&& final(self).raw().released == Map::<u32, bool>::empty()
                &&& no_buttons(final(self).raw().buttons_pressed)
                &&& no_buttons(final(self).raw().buttons_released)
            },
    {
        if self.frame_tick_count > 0 {
            self.keys_just_pressed.clear();
            self.keys_just_released.clear();
            self.mouse_buttons_just_pressed = [false; 3];
            self.mouse_buttons_just_released = [false; 3];
        }
    }
}

/// Whether some binding of `bs` is marked in `keys` / `buttons`.
fn any_binding_on(bs: &Vec<ActionBinding>, keys: &HashMap<u32, bool>, buttons: &[bool; 3]) -> (r: bool)
    ensures
        r == any_on(bs@, keys@, *buttons),
{
    let mut i: usize = 0;
    while i < bs.len()
        invariant
            i <= bs@.len(),
            forall|j: int| 0 <= j < i ==> !binding_on(#[trigger] bs@[j], keys@, *buttons),
        decreases bs@.len() - i,
    {
        let on = match bs[i] {
            ActionBinding::Key(k) => match keys.get(&k) {
                Some(v) => *v,
                None => false,
            },
            ActionBinding::MouseButton(b) => b < 3 && buttons[b as usize],
        };
        if on {
            assert(binding_on(bs@[i as int], keys@, *buttons));
            return true;
        }
        i = i + 1;
    }
    false
}

/// A key pressed this frame makes every action bound to it just pressed on
/// the next tick, whatever else happened to its bindings.
pub proof fn law_press_makes_just_pressed(bs: Seq<ActionBinding>, raw: RawInput, i: int)
    requires
        0 <= i < bs.len(),
        binding_on(bs[i], raw.pressed, raw.buttons_pressed),
    ensures
        next_action_state(bs, raw) == ActionState::JustPressed,
{
}

/// Once a frame's marks are cleared, an action whose binding is still down
/// is held (no longer just pressed), and one with nothing down is idle.
pub proof fn law_cleared_frame_holds_or_idles(bs: Seq<ActionBinding>, raw: RawInput)
    requires
        raw.pressed == Map::<u32, bool>::empty(),
        raw.released == Map::<u32, bool>::empty(),
        no_buttons(raw.buttons_pressed),
        no_buttons(raw.buttons_released),
    ensures
        any_on(bs, raw.down, raw.buttons_down) ==> next_action_state(bs, raw) == ActionState::Held,
        !any_on(bs, raw.down, raw.buttons_down) ==> next_action_state(bs, raw) == ActionState::Idle,
{
    assert(!any_on(bs, raw.pressed, raw.buttons_pressed)) by {
        assert forall|i: int| 0 <= i < bs.len() implies !binding_on(#[trigger] bs[i], raw.pressed, raw.buttons_pressed) by {
            match bs[i] {
                ActionBinding::Key(k) => {},
                ActionBinding::MouseButton(m) => {
                    if m < 3 { assert(m == 0 || m == 1 || m == 2); }
                },
            }
        }
    }
    assert(!any_on(bs, raw.released, raw.buttons_released)) by {
        assert forall|i: int| 0 <= i < bs.len() implies !binding_on(#[trigger] bs[i], raw.released, raw.buttons_released) by {
            match bs[i] {
                ActionBinding::Key(k) => {},
                ActionBinding::MouseButton(m) => {
                    if m < 3 { assert(m == 0 || m == 1 || m == 2); }
                },
            }
        }
    }
}

} // verus!
