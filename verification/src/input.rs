//! The input state shared between the event loop and the render loop: the
//! set of keys held down, the mouse motion accumulated since the last frame,
//! and what the pressed keys mean for a free-fly camera.
//!
//! The state itself is single-threaded; a caller that shares it between
//! threads wraps it in a lock. The scalar type of the mouse motion is a
//! parameter, and its addition is supplied by the caller.

use vstd::prelude::*;

verus! {

/// A key of the keyboard. The keys that steer the camera or end the program
/// have a variant of their own; every other key is told apart by its code.
#[derive(Clone, Copy, Debug, PartialEq, Eq, Structural)]
pub enum Key {
    A,
    D,
    E,
    Q,
    S,
    W,
    Left,
    Right,
    Up,
    Down,
    Escape,
    Other(u32),
}

/// A degree of freedom of the camera: three of translation, two of rotation.
#[derive(Clone, Copy, Debug, PartialEq, Eq, Structural)]
pub enum Axis {
    X,
    Y,
    Z,
    Yaw,
    Pitch,
}

/// One contribution of a held key to the camera during a frame: the elapsed
/// time, times the movement speed where `with_speed` is set, is added to
/// `axis` where `positive` is set and subtracted from it otherwise.
#[derive(Clone, Copy, Debug, PartialEq, Eq, Structural)]
pub struct CameraStep {
    pub axis: Axis,
    pub positive: bool,
    pub with_speed: bool,
}

/// What the window system reports to the event loop.
pub enum InputEvent<D> {
    /// The user asked to close the window.
    CloseRequested,
    /// A key went down (`pressed`) or up.
    Key { key: Key, pressed: bool },
    /// The mouse moved by a raw relative amount.
    MouseMotion { dx: D, dy: D },
    /// Anything else.
    Other,
}

/// What the event loop does after an event.
#[derive(Clone, Copy, Debug, PartialEq, Eq, Structural)]
pub enum Flow {
    /// Wait for the next event.
    Wait,
    /// Leave the loop and end the program.
    Exit,
}

/// Keys held down, in the order in which they went down, and the mouse motion
/// accumulated since it was last sampled.
pub struct InputState<D> {
    keys: Vec<Key>,
    delta_x: D,
    delta_y: D,
    zero: D,
}

/// The pressed keys after `key` goes down: a key that is already held is not
/// entered a second time.
pub open spec fn press(keys: Seq<Key>, key: Key) -> Seq<Key> {
    if keys.contains(key) {
        keys
    } else {
        keys.push(key)
    }
}

/// The pressed keys after `key` goes up: its entry leaves, the others keep
/// their order; a key that is not held changes nothing.
pub open spec fn release(keys: Seq<Key>, key: Key) -> Seq<Key> {
    if keys.contains(key) {
        keys.remove(keys.index_of(key))
    } else {
        keys
    }
}

/// How a held key moves the camera, if it does.
pub open spec fn step_of_key(key: Key) -> Option<CameraStep> {
    match key {
        Key::D => Some(CameraStep { axis: Axis::X, positive: true, with_speed: true }),
        Key::A => Some(CameraStep { axis: Axis::X, positive: false, with_speed: true }),
        Key::W => Some(CameraStep { axis: Axis::Y, positive: true, with_speed: true }),
        Key::S => Some(CameraStep { axis: Axis::Y, positive: false, with_speed: true }),
        Key::Q => Some(CameraStep { axis: Axis::Z, positive: true, with_speed: true }),
        Key::E => Some(CameraStep { axis: Axis::Z, positive: false, with_speed: true }),
        Key::Left => Some(CameraStep { axis: Axis::Yaw, positive: true, with_speed: false }),
        Key::Right => Some(CameraStep { axis: Axis::Yaw, positive: false, with_speed: false }),
        Key::Up => Some(CameraStep { axis: Axis::Pitch, positive: true, with_speed: false }),
        Key::Down => Some(CameraStep { axis: Axis::Pitch, positive: false, with_speed: false }),
        _ => None,
    }
}

/// The camera steps of the held keys, in the keys' order; keys that do not
/// steer the camera contribute nothing.
pub open spec fn steps_of_keys(keys: Seq<Key>) -> Seq<CameraStep>
    decreases keys.len(),
{
    if keys.len() == 0 {
        Seq::empty()
    } else {
        let before = steps_of_keys(keys.drop_last());
        match step_of_key(keys.last()) {
            Some(step) => before.push(step),
            None => before,
        }
    }
}

/// Whether the event loop ends after `event`: when the render loop has died,
/// on a close request, and on any transition of the escape key.
pub open spec fn flow_of<D>(event: InputEvent<D>, render_healthy: bool) -> Flow {
    if !render_healthy {
        Flow::Exit
    } else {
        match event {
            InputEvent::CloseRequested => Flow::Exit,
            InputEvent::Key { key, .. } => if key == Key::Escape {
                Flow::Exit
            } else {
                Flow::Wait
            },
            _ => Flow::Wait,
        }
    }
}

/// Removing one entry of a sequence without repeats leaves no repeats, and
/// the removed value is gone.
proof fn lemma_remove_distinct(keys: Seq<Key>, i: int)
    requires
        keys.no_duplicates(),
        0 <= i < keys.len(),
    ensures
        keys.remove(i).no_duplicates(),
        !keys.remove(i).contains(keys[i]),
{
    let rest = keys.remove(i);
    assert forall|a: int, b: int| 0 <= a < rest.len() && 0 <= b < rest.len() && a != b implies rest[a]
        != rest[b] by {
        let a0 = if a < i { a } else { a + 1 };
        let b0 = if b < i { b } else { b + 1 };
        assert(rest[a] == keys[a0] && rest[b] == keys[b0]);
    }
    assert forall|a: int| 0 <= a < rest.len() implies rest[a] != keys[i] by {
        let a0 = if a < i { a } else { a + 1 };
        assert(rest[a] == keys[a0]);
    }
}

/// A press followed by a release of the same key leaves the key up. Where it
/// was up before, the pressed keys are what they were; in particular, from no
/// keys at all, none is held afterwards.
pub proof fn lemma_press_then_release(keys: Seq<Key>, key: Key)
    requires
        keys.no_duplicates(),
    ensures
        !release(press(keys, key), key).contains(key),
        release(press(keys, key), key).no_duplicates(),
        !keys.contains(key) ==> release(press(keys, key), key) == keys,
        release(press(Seq::<Key>::empty(), key), key) == Seq::<Key>::empty(),
{
    lemma_press_keeps_distinct(keys, key);
    let down = press(keys, key);
    assert(down.contains(key)) by {
        if !keys.contains(key) {
            assert(down[keys.len() as int] == key);
        }
    }
    let i = down.index_of(key);
    lemma_remove_distinct(down, i);
    if !keys.contains(key) {
        assert(down[keys.len() as int] == key);
        assert(i == keys.len());
        assert(down.remove(i) =~= keys);
    }
    let none = Seq::<Key>::empty();
    assert(press(none, key)[0] == key);
    assert(press(none, key).index_of(key) == 0);
    assert(release(press(none, key), key) =~= none);
}

/// A press never enters a key twice.
proof fn lemma_press_keeps_distinct(keys: Seq<Key>, key: Key)
    requires
        keys.no_duplicates(),
    ensures
        press(keys, key).no_duplicates(),
        press(keys, key).contains(key),
{
    let down = press(keys, key);
    if !keys.contains(key) {
        assert(down[keys.len() as int] == key);
        assert forall|a: int, b: int| 0 <= a < down.len() && 0 <= b < down.len() && a != b implies down[a]
            != down[b] by {
            if a < keys.len() {
                assert(keys.contains(keys[a]));
            }
            if b < keys.len() {
                assert(keys.contains(keys[b]));
            }
        }
    }
}

/// Pressing a key that is already down changes nothing: after two presses the
/// key is held exactly once.
pub proof fn lemma_press_is_idempotent(keys: Seq<Key>, key: Key)
    requires
        keys.no_duplicates(),
    ensures
        press(press(keys, key), key) == press(keys, key),
        press(keys, key).contains(key),
        forall|i: int, j: int|
            0 <= i < press(keys, key).len() && 0 <= j < press(keys, key).len() && press(keys, key)[i]
                == key && press(keys, key)[j] == key ==> i == j,
        press(press(Seq::<Key>::empty(), key), key) == seq![key],
{
    lemma_press_keeps_distinct(keys, key);
    let none = Seq::<Key>::empty();
    assert(press(none, key) =~= seq![key]);
    assert(seq![key][0] == key);
    assert(seq![key].contains(key));
}

/// Two samples in a row: the second finds the same keys held and no mouse
/// motion at all.
pub proof fn lemma_second_sample_is_still<D: Copy>(
    s0: InputState<D>,
    s1: InputState<D>,
    s2: InputState<D>,
)
    requires
        s1.is_sample_of(s0),
        s2.is_sample_of(s1),
    ensures
        s2.pressed() == s0.pressed(),
        s2.delta() == (s0.zero(), s0.zero()),
        s2.delta() == s1.delta(),
{
}

/// The camera step of a held key, if it steers the camera.
pub fn camera_step(key: Key) -> (step: Option<CameraStep>)
    ensures
        step == step_of_key(key),
{
    match key {
        Key::D => Some(CameraStep { axis: Axis::X, positive: true, with_speed: true }),
        Key::A => Some(CameraStep { axis: Axis::X, positive: false, with_speed: true }),
        Key::W => Some(CameraStep { axis: Axis::Y, positive: true, with_speed: true }),
        Key::S => Some(CameraStep { axis: Axis::Y, positive: false, with_speed: true }),
        Key::Q => Some(CameraStep { axis: Axis::Z, positive: true, with_speed: true }),
        Key::E => Some(CameraStep { axis: Axis::Z, positive: false, with_speed: true }),
        Key::Left => Some(CameraStep { axis: Axis::Yaw, positive: true, with_speed: false }),
        Key::Right => Some(CameraStep { axis: Axis::Yaw, positive: false, with_speed: false }),
        Key::Up => Some(CameraStep { axis: Axis::Pitch, positive: true, with_speed: false }),
        Key::Down => Some(CameraStep { axis: Axis::Pitch, positive: false, with_speed: false }),
        _ => None,
    }
}

/// What the held keys do to the camera this frame, one step per steering key,
/// in the order in which the keys went down.
pub fn camera_steps(keys: &Vec<Key>) -> (steps: Vec<CameraStep>)
    ensures
        steps@ == steps_of_keys(keys@),
{
    let mut steps: Vec<CameraStep> = Vec::new();
    let mut i: usize = 0;
    while i < keys.len()
        invariant
            i <= keys.len(),
            steps@ == steps_of_keys(keys@.take(i as int)),
        decreases keys.len() - i,
    {
        proof {
            let next = keys@.take(i + 1);
            assert(next.drop_last() =~= keys@.take(i as int));
            assert(next.last() == keys@[i as int]);
        }
        match camera_step(keys[i]) {
            Some(step) => {
                steps.push(step);
            },
            None => {},
        }
        i += 1;
    }
    assert(keys@.take(i as int) =~= keys@);
    steps
}

/// Whether the event loop ends after `event`.
pub fn next_flow<D>(event: &InputEvent<D>, render_healthy: bool) -> (flow: Flow)
    ensures
        flow == flow_of(*event, render_healthy),
{
    if !render_healthy {
        return Flow::Exit;
    }
    match event {
        InputEvent::CloseRequested => Flow::Exit,
        InputEvent::Key { key, .. } => {
            if *key == Key::Escape {
                Flow::Exit
            } else {
                Flow::Wait
            }
        },
        _ => Flow::Wait,
    }
}

impl<D: Copy> InputState<D> {
    /// The keys held down, oldest press first.
    pub closed spec fn pressed(&self) -> Seq<Key> {
        self.keys@
    }

    /// The mouse motion accumulated since the last sample.
    pub closed spec fn delta(&self) -> (D, D) {
        (self.delta_x, self.delta_y)
    }

    /// The value that the accumulated motion is reset to.
    pub closed spec fn zero(&self) -> D {
        self.zero
    }

    /// No key is held twice.
    pub open spec fn wf(&self) -> bool {
        self.pressed().no_duplicates()
    }

    /// `self` is the state that a sample leaves behind when taken in `before`:
    /// the same keys, the motion back at zero.
    pub open spec fn is_sample_of(&self, before: Self) -> bool {
        &&& self.pressed() == before.pressed()
        &&& self.zero() == before.zero()
        &&& self.delta() == (before.zero(), before.zero())
    }

    /// `self` is `before` after `event`.
    pub open spec fn is_after_key(&self, before: Self, key: Key, pressed: bool) -> bool {
        &&& self.pressed() == if pressed {
            press(before.pressed(), key)
        } else {
            release(before.pressed(), key)
        }
        &&& self.delta() == before.delta()
        &&& self.zero() == before.zero()
    }

    /// `self` is `before` after a mouse motion of (`dx`, `dy`), added with `plus`.
    pub open spec fn is_after_motion<F: Fn(D, D) -> D>(
        &self,
        before: Self,
        dx: D,
        dy: D,
        plus: &F,
    ) -> bool {
        &&& call_ensures(plus, (before.delta().0, dx), self.delta().0)
        &&& call_ensures(plus, (before.delta().1, dy), self.delta().1)
        &&& self.pressed() == before.pressed()
        &&& self.zero() == before.zero()
    }

    /// No key held, no motion accumulated; `zero` is the scalar zero.
    pub fn new(zero: D) -> (state: Self)
        ensures
            state.wf(),
            state.pressed() == Seq::<Key>::empty(),
            state.delta() == (zero, zero),
            state.zero() == zero,
    {
        InputState { keys: Vec::new(), delta_x: zero, delta_y: zero, zero }
    }

    /// Whether `key` is held.
    pub fn is_pressed(&self, key: Key) -> (held: bool)
        ensures
            held == self.pressed().contains(key),
    {
        let mut i: usize = 0;
        while i < self.keys.len()
            invariant
                i <= self.keys.len(),
                forall|j: int| 0 <= j < i ==> self.keys@[j] != key,
            decreases self.keys.len() - i,
        {
            if self.keys[i] == key {
                assert(self.keys@[i as int] == key);
                return true;
            }
            i += 1;
        }
        false
    }

    /// Records that `key` went down (`pressed`) or up. A second press of a
    /// held key and a release of a key that is not held change nothing.
    pub fn record_key_transition(&mut self, key: Key, pressed: bool)
        requires
            old(self).wf(),
        ensures
            final(self).wf(),
            final(self).is_after_key(*old(self), key, pressed),
    {
        let mut i: usize = 0;
        while i < self.keys.len()
            invariant
                i <= self.keys.len(),
                *self == *old(self),
                self.wf(),
                forall|j: int| 0 <= j < i ==> self.keys@[j] != key,
            decreases self.keys.len() - i,
        {
            if self.keys[i] == key {
                proof {
                    let at = self.keys@.index_of(key);
                    assert(self.keys@[i as int] == key);
                    assert(self.keys@.contains(key));
                    assert(at == i);
                    lemma_remove_distinct(self.keys@, i as int);
                }
                if !pressed {
                    self.keys.remove(i);
                }
                return;
            }
            i += 1;
        }
        assert(!self.keys@.contains(key));
        if pressed {
            proof {
                lemma_press_keeps_distinct(self.keys@, key);
            }
            self.keys.push(key);
        }
    }

    /// Adds a raw mouse motion to the accumulated one, component by component,
    /// with the caller's addition.
    pub fn accumulate_mouse_delta<F: Fn(D, D) -> D>(&mut self, dx: D, dy: D, plus: &F)
        requires
            call_requires(plus, (old(self).delta().0, dx)),
            call_requires(plus, (old(self).delta().1, dy)),
        ensures
            final(self).is_after_motion(*old(self), dx, dy, plus),
    {
        let x = plus(self.delta_x, dx);
        let y = plus(self.delta_y, dy);
        self.delta_x = x;
        self.delta_y = y;
    }

    /// Hands out the held keys and the accumulated mouse motion, and resets
    /// the motion to zero. The keys stay held until their release is recorded.
    pub fn sample_and_reset(&mut self) -> (sample: (Vec<Key>, (D, D)))
        ensures
            sample.0@ == old(self).pressed(),
            sample.1 == old(self).delta(),
            final(self).is_sample_of(*old(self)),
    {
        let mut held: Vec<Key> = Vec::new();
        let mut i: usize = 0;
        while i < self.keys.len()
            invariant
                i <= self.keys.len(),
                *self == *old(self),
                held@ == self.keys@.take(i as int),
            decreases self.keys.len() - i,
        {
            held.push(self.keys[i]);
            assert(self.keys@.take(i + 1) =~= self.keys@.take(i as int).push(self.keys@[i as int]));
            i += 1;
        }
        assert(self.keys@.take(i as int) =~= self.keys@);
        let motion = (self.delta_x, self.delta_y);
        self.delta_x = self.zero;
        self.delta_y = self.zero;
        (held, motion)
    }

    /// Applies one event of the window system to the state and says whether
    /// the event loop goes on. Key transitions and mouse motion are recorded
    /// whatever the answer is.
    pub fn handle_event<F: Fn(D, D) -> D>(
        &mut self,
        event: InputEvent<D>,
        render_healthy: bool,
        plus: &F,
    ) -> (flow: Flow)
        requires
            old(self).wf(),
            event matches InputEvent::MouseMotion { dx, dy } ==> call_requires(
                plus,
                (old(self).delta().0, dx),
            ) && call_requires(plus, (old(self).delta().1, dy)),
        ensures
            final(self).wf(),
            flow == flow_of(event, render_healthy),
            match event {
                InputEvent::Key { key, pressed } => final(self).is_after_key(
                    *old(self),
                    key,
                    pressed,
                ),
                InputEvent::MouseMotion { dx, dy } => final(self).is_after_motion(
                    *old(self),
                    dx,
                    dy,
                    plus,
                ),
                _ => *final(self) == *old(self),
            },
    {
        let flow = next_flow(&event, render_healthy);
        match event {
            InputEvent::Key { key, pressed } => {
                self.record_key_transition(key, pressed);
            },
            InputEvent::MouseMotion { dx, dy } => {
                self.accumulate_mouse_delta(dx, dy, plus);
            },
            _ => {},
        }
        flow
    }
}

} // verus!
