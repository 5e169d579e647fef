//! The layout engine: a layered keymap that turns confirmed key events into
//! the set of logical keys held down, tick by tick.

use crate::debounce::KeyEvent;
use crate::report::{takes_a_slot, takes_slot, SLOTS};
use vstd::prelude::*;

verus! {

/// What a hold-tap key does once it has been held past its window.
#[derive(Clone, Copy, Debug, PartialEq, Eq)]
pub enum Hold {
    /// Holds a key code down, most often a modifier.
    Key(u8),
    /// Shifts to a layer.
    Layer(usize),
}

/// What a key position is bound to on one layer.
#[derive(Clone, Copy, Debug, PartialEq, Eq)]
pub enum Action {
    /// Nothing happens.
    NoOp,
    /// Transparent: the binding of the next active layer below applies.
    Trans,
    /// Holds one key code down while the key is down.
    Key(u8),
    /// Shifts to a layer while the key is down.
    Layer(usize),
    /// Holds a bundle of key codes down while the key is down.
    Macro(&'static [u8]),
    /// Taps `tap` when released within `window` ticks, acts as `hold` when
    /// held past them.
    HoldTap { window: u16, tap: u8, hold: Hold },
}

/// Which key gives way when the held set is full.
#[derive(Clone, Copy, Debug, PartialEq, Eq)]
pub enum Overflow {
    /// The key that has been held longest leaves the set.
    DropOldest,
    /// The new key does not enter the set.
    RejectNewest,
}

/// How long a held key stays in the set.
#[derive(Clone, Copy, Debug, PartialEq, Eq)]
pub enum Life {
    /// Until the key that put it there is released.
    Held,
    /// A tap that no tick has shown yet.
    Tap,
    /// A tap that one tick has shown: the next tick removes it.
    Spent,
}

/// A logical key that is down, with the key position that put it there.
#[derive(Clone, Copy, Debug, PartialEq, Eq)]
pub struct HeldKey {
    pub code: u8,
    pub row: usize,
    pub col: usize,
    pub life: Life,
}

/// A layer that is active above the base layer, with the key position that
/// shifted to it.
#[derive(Clone, Copy, Debug, PartialEq, Eq)]
pub struct Shift {
    pub layer: usize,
    pub row: usize,
    pub col: usize,
}

/// A hold-tap key that is down and still within its window.
#[derive(Clone, Copy, Debug, PartialEq, Eq)]
pub struct Waiting {
    pub row: usize,
    pub col: usize,
    /// Ticks seen since the press.
    pub age: u16,
    pub window: u16,
    pub tap: u8,
    pub hold: Hold,
}

/// What an event did.
#[derive(Clone, Copy, Debug, PartialEq, Eq)]
pub enum Effect {
    /// A press of a position that is already down: nothing changed.
    Ignored,
    /// A press, with the action that it resolved to.
    Pressed(Action),
    /// A release that ends whatever the position held down or shifted to.
    Released,
    /// A release within the window of a hold-tap key: its tap code.
    Tapped(u8),
}

/// The mutable state of the engine.
pub struct State {
    /// The held set, oldest first.
    pub held: Seq<HeldKey>,
    /// The layer stack above the base layer, bottom first.
    pub shifts: Seq<Shift>,
    /// The hold-tap keys within their window, oldest first.
    pub waiting: Seq<Waiting>,
}

/// What the engine takes in: a key event or the end of a tick.
pub enum Input {
    Key(KeyEvent),
    Tick,
}

/// The binding of a position on a layer, where the keymap defines one.
pub open spec fn binding(keymap: Seq<Vec<Vec<Action>>>, layer: int, row: int, col: int) -> Option<
    Action,
> {
    if 0 <= layer < keymap.len() && 0 <= row < keymap[layer]@.len() && 0 <= col
        < keymap[layer]@[row]@.len() {
        Some(keymap[layer]@[row]@[col])
    } else {
        None
    }
}

/// Whether a layer decides what a position does: it defines a binding for it
/// that is not transparent.
pub open spec fn decides(keymap: Seq<Vec<Vec<Action>>>, layer: int, row: int, col: int) -> bool {
    binding(keymap, layer, row, col) matches Some(action) && !(action is Trans)
}

/// The action of a position under a layer stack: the binding of the topmost
/// layer that decides, down to the base layer, and `NoOp` where none does.
pub open spec fn resolve(keymap: Seq<Vec<Vec<Action>>>, shifts: Seq<Shift>, row: int, col: int)
    -> Action
    decreases shifts.len(),
{
    if shifts.len() == 0 {
        if decides(keymap, 0, row, col) {
            binding(keymap, 0, row, col)->0
        } else {
            Action::NoOp
        }
    } else if decides(keymap, shifts.last().layer as int, row, col) {
        binding(keymap, shifts.last().layer as int, row, col)->0
    } else {
        resolve(keymap, shifts.drop_last(), row, col)
    }
}

/// How many keys of a held set take a key slot of the report. Modifiers go
/// to the modifier byte and take none.
pub open spec fn slot_count(held: Seq<HeldKey>) -> nat
    decreases held.len(),
{
    if held.len() == 0 {
        0
    } else if takes_slot(held.last().code) {
        slot_count(held.drop_last()) + 1
    } else {
        slot_count(held.drop_last())
    }
}

/// The index of the oldest key of a held set that takes a key slot, and the
/// length of the held set where none does.
pub open spec fn oldest_slot(held: Seq<HeldKey>) -> int
    decreases held.len(),
{
    if held.len() == 0 || takes_slot(held[0].code) {
        0
    } else {
        1 + oldest_slot(held.drop_first())
    }
}

/// The held set after `key` has asked to enter it. A key that takes no slot
/// always enters. One that takes a slot enters while fewer than `capacity`
/// keys take one; when they are that many, either it stays out or the oldest
/// of them makes room for it.
pub open spec fn insert_key(held: Seq<HeldKey>, capacity: nat, overflow: Overflow, key: HeldKey)
    -> Seq<HeldKey> {
    if !takes_slot(key.code) || slot_count(held) < capacity {
        held.push(key)
    } else if capacity == 0 || overflow is RejectNewest {
        held
    } else {
        held.remove(oldest_slot(held)).push(key)
    }
}

/// The held set after the codes of a bundle have asked to enter it, in turn.
pub open spec fn insert_keys(
    held: Seq<HeldKey>,
    capacity: nat,
    overflow: Overflow,
    codes: Seq<u8>,
    row: usize,
    col: usize,
) -> Seq<HeldKey>
    decreases codes.len(),
{
    if codes.len() == 0 {
        held
    } else {
        insert_key(
            insert_keys(held, capacity, overflow, codes.drop_last(), row, col),
            capacity,
            overflow,
            HeldKey { code: codes.last(), row, col, life: Life::Held },
        )
    }
}

/// Whether the position holds a key down until its release.
pub open spec fn holds_key(held: Seq<HeldKey>, row: usize, col: usize) -> bool {
    exists|i: int|
        0 <= i < held.len() && (#[trigger] held[i]).row == row && held[i].col == col
            && held[i].life is Held
}

/// Whether the position has shifted to a layer.
pub open spec fn holds_shift(shifts: Seq<Shift>, row: usize, col: usize) -> bool {
    exists|i: int|
        0 <= i < shifts.len() && (#[trigger] shifts[i]).row == row && shifts[i].col == col
}

/// Whether the position is a hold-tap key within its window.
pub open spec fn is_waiting(waiting: Seq<Waiting>, row: usize, col: usize) -> bool {
    exists|i: int|
        0 <= i < waiting.len() && (#[trigger] waiting[i]).row == row && waiting[i].col == col
}

/// Whether the engine knows the position to be down.
pub open spec fn is_down(state: State, row: usize, col: usize) -> bool {
    holds_key(state.held, row, col) || holds_shift(state.shifts, row, col) || is_waiting(
        state.waiting,
        row,
        col,
    )
}

/// The held set without the keys that the position holds down until its
/// release, the others in their order.
pub open spec fn without_key(held: Seq<HeldKey>, row: usize, col: usize) -> Seq<HeldKey>
    decreases held.len(),
{
    if held.len() == 0 {
        held
    } else {
        let rest = without_key(held.drop_last(), row, col);
        let key = held.last();
        if key.row == row && key.col == col && key.life is Held {
            rest
        } else {
            rest.push(key)
        }
    }
}

/// The layer stack without the layers that the position shifted to, the others
/// in their order.
pub open spec fn without_shift(shifts: Seq<Shift>, row: usize, col: usize) -> Seq<Shift>
    decreases shifts.len(),
{
    if shifts.len() == 0 {
        shifts
    } else {
        let rest = without_shift(shifts.drop_last(), row, col);
        let shift = shifts.last();
        if shift.row == row && shift.col == col {
            rest
        } else {
            rest.push(shift)
        }
    }
}

/// The waiting keys without the position, the others in their order.
pub open spec fn without_waiting(waiting: Seq<Waiting>, row: usize, col: usize) -> Seq<Waiting>
    decreases waiting.len(),
{
    if waiting.len() == 0 {
        waiting
    } else {
        let rest = without_waiting(waiting.drop_last(), row, col);
        let w = waiting.last();
        if w.row == row && w.col == col {
            rest
        } else {
            rest.push(w)
        }
    }
}

/// The tap code of the position, where it is a hold-tap key within its
/// window: that of its oldest entry.
pub open spec fn tap_of(waiting: Seq<Waiting>, row: usize, col: usize) -> Option<u8>
    decreases waiting.len(),
{
    if waiting.len() == 0 {
        None
    } else {
        let rest = tap_of(waiting.drop_last(), row, col);
        let w = waiting.last();
        if rest is Some {
            rest
        } else if w.row == row && w.col == col {
            Some(w.tap)
        } else {
            None
        }
    }
}

/// The state after a press of a position.
pub open spec fn press(
    keymap: Seq<Vec<Vec<Action>>>,
    capacity: nat,
    overflow: Overflow,
    state: State,
    row: usize,
    col: usize,
) -> State {
    if is_down(state, row, col) {
        state
    } else {
        match resolve(keymap, state.shifts, row as int, col as int) {
            Action::NoOp | Action::Trans => state,
            Action::Key(code) => State {
                held: insert_key(
                    state.held,
                    capacity,
                    overflow,
                    HeldKey { code, row, col, life: Life::Held },
                ),
                shifts: state.shifts,
                waiting: state.waiting,
            },
            Action::Layer(layer) => State {
                held: state.held,
                shifts: state.shifts.push(Shift { layer, row, col }),
                waiting: state.waiting,
            },
            Action::Macro(codes) => State {
                held: insert_keys(state.held, capacity, overflow, codes@, row, col),
                shifts: state.shifts,
                waiting: state.waiting,
            },
            Action::HoldTap { window, tap, hold } => State {
                held: state.held,
                shifts: state.shifts,
                waiting: state.waiting.push(Waiting { row, col, age: 0, window, tap, hold }),
            },
        }
    }
}

/// The state after a release of a position: what it held down or shifted to
/// is gone, and a hold-tap key within its window leaves its tap behind.
pub open spec fn release(capacity: nat, overflow: Overflow, state: State, row: usize, col: usize)
    -> State {
    let held = without_key(state.held, row, col);
    State {
        held: match tap_of(state.waiting, row, col) {
            Some(code) => insert_key(
                held,
                capacity,
                overflow,
                HeldKey { code, row, col, life: Life::Tap },
            ),
            None => held,
        },
        shifts: without_shift(state.shifts, row, col),
        waiting: without_waiting(state.waiting, row, col),
    }
}

/// The state after a key event.
pub open spec fn apply(
    keymap: Seq<Vec<Vec<Action>>>,
    capacity: nat,
    overflow: Overflow,
    state: State,
    event: KeyEvent,
) -> State {
    if event.pressed {
        press(keymap, capacity, overflow, state, event.row, event.col)
    } else {
        release(capacity, overflow, state, event.row, event.col)
    }
}

/// The layout state after a sequence of key events, oldest first.
pub open spec fn apply_all(
    keymap: Seq<Vec<Vec<Action>>>,
    capacity: nat,
    overflow: Overflow,
    state: State,
    events: Seq<KeyEvent>,
) -> State
    decreases events.len(),
{
    if events.len() == 0 {
        state
    } else {
        apply(
            keymap,
            capacity,
            overflow,
            apply_all(keymap, capacity, overflow, state, events.drop_last()),
            events.last(),
        )
    }
}

/// What a key event does in a state.
pub open spec fn effect_of(keymap: Seq<Vec<Vec<Action>>>, state: State, event: KeyEvent) -> Effect {
    if event.pressed {
        if is_down(state, event.row, event.col) {
            Effect::Ignored
        } else {
            Effect::Pressed(resolve(keymap, state.shifts, event.row as int, event.col as int))
        }
    } else {
        match tap_of(state.waiting, event.row, event.col) {
            Some(code) => Effect::Tapped(code),
            None => Effect::Released,
        }
    }
}

/// The held set at the start of a tick: the taps that a tick has shown are
/// gone, and the fresh ones will be shown once.
pub open spec fn expire(held: Seq<HeldKey>) -> Seq<HeldKey>
    decreases held.len(),
{
    if held.len() == 0 {
        held
    } else {
        let rest = expire(held.drop_last());
        let key = held.last();
        match key.life {
            Life::Spent => rest,
            Life::Tap => rest.push(
                HeldKey { code: key.code, row: key.row, col: key.col, life: Life::Spent },
            ),
            Life::Held => rest.push(key),
        }
    }
}

/// The state after the hold-tap keys in `waiting` have seen one more tick, in
/// turn: a key that has been down for its whole window acts as its hold, the
/// others grow older.
pub open spec fn ripen(state: State, capacity: nat, overflow: Overflow, waiting: Seq<Waiting>)
    -> State
    decreases waiting.len(),
{
    if waiting.len() == 0 {
        State { held: state.held, shifts: state.shifts, waiting: Seq::empty() }
    } else {
        let prev = ripen(state, capacity, overflow, waiting.drop_last());
        let w = waiting.last();
        if w.age >= w.window {
            match w.hold {
                Hold::Key(code) => State {
                    held: insert_key(
                        prev.held,
                        capacity,
                        overflow,
                        HeldKey { code, row: w.row, col: w.col, life: Life::Held },
                    ),
                    shifts: prev.shifts,
                    waiting: prev.waiting,
                },
                Hold::Layer(layer) => State {
                    held: prev.held,
                    shifts: prev.shifts.push(Shift { layer, row: w.row, col: w.col }),
                    waiting: prev.waiting,
                },
            }
        } else {
            State {
                held: prev.held,
                shifts: prev.shifts,
                waiting: prev.waiting.push(
                    Waiting {
                        row: w.row,
                        col: w.col,
                        age: (w.age + 1) as u16,
                        window: w.window,
                        tap: w.tap,
                        hold: w.hold,
                    },
                ),
            }
        }
    }
}

/// The state after a tick.
pub open spec fn tick(capacity: nat, overflow: Overflow, state: State) -> State {
    ripen(
        State { held: expire(state.held), shifts: state.shifts, waiting: state.waiting },
        capacity,
        overflow,
        state.waiting,
    )
}

/// The key codes of a held set, oldest first.
pub open spec fn codes_of(held: Seq<HeldKey>) -> Seq<u8> {
    Seq::new(held.len(), |i: int| held[i].code)
}

/// The active layers, the base layer first and the topmost last.
pub open spec fn layers_of(shifts: Seq<Shift>) -> Seq<usize> {
    Seq::new(shifts.len() + 1, |i: int| if i == 0 { 0usize } else { shifts[i - 1].layer })
}

/// Whether no key in `waiting` is older than its window.
pub open spec fn ages_wf(waiting: Seq<Waiting>) -> bool {
    forall|i: int| 0 <= i < waiting.len() ==> (#[trigger] waiting[i]).age <= waiting[i].window
}

/// A state that the engine can be in: no more keys that take a slot than the
/// capacity, and no waiting key older than its window.
pub open spec fn state_wf(state: State, capacity: nat) -> bool {
    &&& slot_count(state.held) <= capacity
    &&& ages_wf(state.waiting)
}

/// A key that enters at the end counts where it takes a slot.
pub proof fn lemma_slot_count_push(held: Seq<HeldKey>, key: HeldKey)
    ensures
        slot_count(held.push(key)) == slot_count(held) + if takes_slot(key.code) {
            1nat
        } else {
            0nat
        },
{
    assert(held.push(key).drop_last() =~= held);
}

/// A key that leaves counts no more where it took a slot.
pub proof fn lemma_slot_count_remove(held: Seq<HeldKey>, i: int)
    requires
        0 <= i < held.len(),
    ensures
        slot_count(held) == slot_count(held.remove(i)) + if takes_slot(held[i].code) {
            1nat
        } else {
            0nat
        },
    decreases held.len(),
{
    if i == held.len() - 1 {
        assert(held.remove(i) =~= held.drop_last());
    } else {
        lemma_slot_count_remove(held.drop_last(), i);
        assert(held.remove(i).drop_last() =~= held.drop_last().remove(i));
        assert(held.remove(i).last() == held.last());
    }
}

/// The oldest key that takes a slot is the first one that does.
pub proof fn lemma_oldest_slot(held: Seq<HeldKey>, first: int)
    requires
        0 <= first < held.len(),
        takes_slot(held[first].code),
        forall|j: int| 0 <= j < first ==> !takes_slot((#[trigger] held[j]).code),
    ensures
        oldest_slot(held) == first,
    decreases first,
{
    if first > 0 {
        let rest = held.drop_first();
        assert(!takes_slot(held[0].code));
        assert(rest[first - 1] == held[first]);
        assert forall|j: int| 0 <= j < first - 1 implies !takes_slot((#[trigger] rest[j]).code) by {
            assert(rest[j] == held[j + 1]);
        }
        lemma_oldest_slot(rest, first - 1);
    }
}

/// Where a key takes a slot, there is an oldest one that does.
pub proof fn lemma_oldest_slot_exists(held: Seq<HeldKey>)
    requires
        slot_count(held) > 0,
    ensures
        0 <= oldest_slot(held) < held.len(),
        takes_slot(held[oldest_slot(held)].code),
        forall|j: int| 0 <= j < oldest_slot(held) ==> !takes_slot((#[trigger] held[j]).code),
    decreases held.len(),
{
    if held.len() > 0 && !takes_slot(held[0].code) {
        let rest = held.drop_first();
        lemma_slot_count_remove(held, 0);
        assert(held.remove(0) =~= rest);
        lemma_oldest_slot_exists(rest);
        assert(rest[oldest_slot(rest)] == held[oldest_slot(rest) + 1]);
        assert forall|j: int| 0 <= j < oldest_slot(held) implies !takes_slot(
            (#[trigger] held[j]).code,
        ) by {
            if j > 0 {
                assert(rest[j - 1] == held[j]);
            }
        }
    }
}

/// A key that asks to enter a held set within its capacity leaves it within
/// its capacity.
pub proof fn lemma_insert_key_bound(
    held: Seq<HeldKey>,
    capacity: nat,
    overflow: Overflow,
    key: HeldKey,
)
    requires
        slot_count(held) <= capacity,
    ensures
        slot_count(insert_key(held, capacity, overflow, key)) <= capacity,
{
    lemma_slot_count_push(held, key);
    if takes_slot(key.code) && slot_count(held) >= capacity && capacity > 0 && overflow
        is DropOldest {
        lemma_oldest_slot_exists(held);
        lemma_slot_count_remove(held, oldest_slot(held));
        lemma_slot_count_push(held.remove(oldest_slot(held)), key);
    }
}

/// A release leaves no more keys that take a slot than there were.
pub proof fn lemma_without_key_slots(held: Seq<HeldKey>, row: usize, col: usize)
    ensures
        slot_count(without_key(held, row, col)) <= slot_count(held),
    decreases held.len(),
{
    if held.len() > 0 {
        lemma_without_key_slots(held.drop_last(), row, col);
        lemma_slot_count_push(without_key(held.drop_last(), row, col), held.last());
    }
}

/// The start of a tick leaves no more keys that take a slot than there were.
pub proof fn lemma_expire_slots(held: Seq<HeldKey>)
    ensures
        slot_count(expire(held)) <= slot_count(held),
    decreases held.len(),
{
    if held.len() > 0 {
        let key = held.last();
        lemma_expire_slots(held.drop_last());
        lemma_slot_count_push(expire(held.drop_last()), key);
        lemma_slot_count_push(
            expire(held.drop_last()),
            HeldKey { code: key.code, row: key.row, col: key.col, life: Life::Spent },
        );
    }
}

/// Once a prefix of the waiting keys holds the position, its tap code is that
/// of the first entry that does.
proof fn lemma_tap_of_prefix(waiting: Seq<Waiting>, k: nat, row: usize, col: usize)
    requires
        k <= waiting.len(),
        tap_of(waiting.take(k as int), row, col) is Some,
    ensures
        tap_of(waiting, row, col) == tap_of(waiting.take(k as int), row, col),
    decreases waiting.len(),
{
    if k < waiting.len() {
        assert(waiting.drop_last().take(k as int) =~= waiting.take(k as int));
        lemma_tap_of_prefix(waiting.drop_last(), k, row, col);
    } else {
        assert(waiting.take(k as int) =~= waiting);
    }
}

/// The layout engine: the keymap, the layer stack, the held set and the
/// hold-tap keys that are still undecided.
pub struct Layout {
    layers: Vec<Vec<Vec<Action>>>,
    capacity: usize,
    overflow: Overflow,
    held: Vec<HeldKey>,
    shifts: Vec<Shift>,
    waiting: Vec<Waiting>,
}

impl View for Layout {
    type V = State;

    closed spec fn view(&self) -> State {
        State { held: self.held@, shifts: self.shifts@, waiting: self.waiting@ }
    }
}

/// Lets `key` ask to enter a held set.
fn insert_into(held: &mut Vec<HeldKey>, capacity: usize, overflow: Overflow, key: HeldKey)
    ensures
        final(held)@ == insert_key(old(held)@, capacity as nat, overflow, key),
        slot_count(old(held)@) <= capacity ==> slot_count(final(held)@) <= capacity,
{
    proof {
        if slot_count(held@) <= capacity {
            lemma_insert_key_bound(held@, capacity as nat, overflow, key);
        }
    }
    if !takes_a_slot(key.code) {
        held.push(key);
        return ;
    }
    let mut taken: usize = 0;
    let mut oldest: usize = 0;
    let mut i: usize = 0;
    while i < held.len()
        invariant
            i <= held@.len(),
            held@ == old(held)@,
            taken == slot_count(held@.take(i as int)),
            taken <= i,
            taken > 0 ==> oldest < i && takes_slot(held@[oldest as int].code),
            forall|j: int|
                0 <= j < (if taken > 0 {
                    oldest
                } else {
                    i
                }) ==> !takes_slot((#[trigger] held@[j]).code),
        decreases held@.len() - i,
    {
        proof {
            assert(held@.take(i + 1).drop_last() =~= held@.take(i as int));
        }
        if takes_a_slot(held[i].code) {
            if taken == 0 {
                oldest = i;
            }
            taken += 1;
        }
        i += 1;
    }
    assert(held@.take(i as int) =~= held@);
    if taken < capacity {
        held.push(key);
    } else if capacity > 0 {
        match overflow {
            Overflow::DropOldest => {
                proof {
                    lemma_oldest_slot(held@, oldest as int);
                }
                let _ = held.remove(oldest);
                held.push(key);
            },
            Overflow::RejectNewest => {},
        }
    }
}

impl Layout {
    /// The keymap: layer, row, column.
    pub closed spec fn keymap(&self) -> Seq<Vec<Vec<Action>>> {
        self.layers@
    }

    /// How many keys that take a slot the held set takes.
    pub closed spec fn spec_capacity(&self) -> nat {
        self.capacity as nat
    }

    /// Which key gives way when the held set is full.
    pub closed spec fn spec_overflow(&self) -> Overflow {
        self.overflow
    }

    /// The state is one that the engine can be in, and the capacity is no
    /// more than the key slots of a report.
    pub open spec fn wf(&self) -> bool {
        &&& state_wf(self@, self.spec_capacity())
        &&& self.spec_capacity() <= SLOTS
    }

    /// An engine for a keymap, with only the base layer active and nothing
    /// held. `layers[l][r][c]` is the binding of position `(r, c)` on layer
    /// `l`; layer 0 is the base layer. The held set takes `capacity` keys
    /// that take a slot, and at most as many as a report has key slots.
    pub fn new(layers: Vec<Vec<Vec<Action>>>, capacity: usize, overflow: Overflow) -> (layout:
        Layout)
        ensures
            layout.wf(),
            layout.keymap() == layers@,
            layout.spec_capacity() == if capacity <= SLOTS {
                capacity
            } else {
                SLOTS
            },
            layout.spec_overflow() == overflow,
            layout@.held.len() == 0,
            layout@.shifts.len() == 0,
            layout@.waiting.len() == 0,
    {
        let capacity: usize = if capacity <= SLOTS {
            capacity
        } else {
            SLOTS
        };
        Layout {
            layers,
            capacity,
            overflow,
            held: Vec::new(),
            shifts: Vec::new(),
            waiting: Vec::new(),
        }
    }

    /// How many keys that take a slot the held set takes.
    pub fn capacity(&self) -> (n: usize)
        ensures
            n == self.spec_capacity(),
    {
        self.capacity
    }

    /// Which key gives way when the held set is full.
    pub fn overflow(&self) -> (policy: Overflow)
        ensures
            policy == self.spec_overflow(),
    {
        self.overflow
    }

    /// The binding of a position on a layer, where the keymap defines one.
    pub fn lookup(&self, layer: usize, row: usize, col: usize) -> (res: Option<Action>)
        ensures
            res == binding(self.keymap(), layer as int, row as int, col as int),
    {
        if layer < self.layers.len() {
            let rows = &self.layers[layer];
            if row < rows.len() {
                let cols = &rows[row];
                if col < cols.len() {
                    return Some(cols[col]);
                }
            }
        }
        None
    }

    /// The action of a position under the active layers.
    pub fn action_at(&self, row: usize, col: usize) -> (action: Action)
        ensures
            action == resolve(self.keymap(), self@.shifts, row as int, col as int),
    {
        let mut k: usize = self.shifts.len();
        assert(self.shifts@.take(k as int) =~= self.shifts@);
        while k > 0
            invariant
                k <= self.shifts@.len(),
                resolve(self.layers@, self.shifts@, row as int, col as int) == resolve(
                    self.layers@,
                    self.shifts@.take(k as int),
                    row as int,
                    col as int,
                ),
            decreases k,
        {
            proof {
                assert(self.shifts@.take(k as int).drop_last() =~= self.shifts@.take(k - 1));
            }
            k -= 1;
            match self.lookup(self.shifts[k].layer, row, col) {
                Some(Action::Trans) | None => {},
                Some(action) => {
                    return action;
                },
            }
        }
        match self.lookup(0, row, col) {
            Some(Action::Trans) | None => Action::NoOp,
            Some(action) => action,
        }
    }

    /// Whether the engine knows the position to be down.
    pub fn down(&self, row: usize, col: usize) -> (res: bool)
        ensures
            res == is_down(self@, row, col),
    {
        let mut i: usize = 0;
        while i < self.held.len()
            invariant
                i <= self.held@.len(),
                forall|j: int|
                    0 <= j < i ==> !((#[trigger] self.held@[j]).row == row && self.held@[j].col
                        == col && self.held@[j].life is Held),
            decreases self.held@.len() - i,
        {
            let key = self.held[i];
            if key.row == row && key.col == col && matches!(key.life, Life::Held) {
                return true;
            }
            i += 1;
        }
        let mut i: usize = 0;
        while i < self.shifts.len()
            invariant
                i <= self.shifts@.len(),
                forall|j: int|
                    0 <= j < i ==> !((#[trigger] self.shifts@[j]).row == row && self.shifts@[j].col
                        == col),
            decreases self.shifts@.len() - i,
        {
            if self.shifts[i].row == row && self.shifts[i].col == col {
                return true;
            }
            i += 1;
        }
        let mut i: usize = 0;
        while i < self.waiting.len()
            invariant
                i <= self.waiting@.len(),
                forall|j: int|
                    0 <= j < i ==> !((#[trigger] self.waiting@[j]).row == row
                        && self.waiting@[j].col == col),
            decreases self.waiting@.len() - i,
        {
            if self.waiting[i].row == row && self.waiting[i].col == col {
                return true;
            }
            i += 1;
        }
        false
    }
    /// The tap code of the position, where it is a hold-tap key within its
    /// window.
    fn tap_at(&self, row: usize, col: usize) -> (res: Option<u8>)
        ensures
            res == tap_of(self@.waiting, row, col),
    {
        let mut i: usize = 0;
        while i < self.waiting.len()
            invariant
                i <= self.waiting@.len(),
                tap_of(self.waiting@.take(i as int), row, col) is None,
            decreases self.waiting@.len() - i,
        {
            proof {
                assert(self.waiting@.take(i + 1).drop_last() =~= self.waiting@.take(i as int));
            }
            let w = self.waiting[i];
            if w.row == row && w.col == col {
                proof {
                    lemma_tap_of_prefix(self.waiting@, (i + 1) as nat, row, col);
                }
                return Some(w.tap);
            }
            i += 1;
        }
        assert(self.waiting@.take(i as int) =~= self.waiting@);
        None
    }

    /// Handles a press.
    fn press(&mut self, row: usize, col: usize) -> (effect: Effect)
        requires
            old(self).wf(),
        ensures
            final(self).wf(),
            final(self).keymap() == old(self).keymap(),
            final(self).spec_capacity() == old(self).spec_capacity(),
            final(self).spec_overflow() == old(self).spec_overflow(),
            final(self)@ == press(
                old(self).keymap(),
                old(self).spec_capacity(),
                old(self).spec_overflow(),
                old(self)@,
                row,
                col,
            ),
            effect == effect_of(
                old(self).keymap(),
                old(self)@,
                KeyEvent { row, col, pressed: true },
            ),
    {
        if self.down(row, col) {
            return Effect::Ignored;
        }
        let action = self.action_at(row, col);
        let capacity: usize = self.capacity;
        let overflow = self.overflow;
        match action {
            Action::NoOp | Action::Trans => {},
            Action::Key(code) => {
                insert_into(
                    &mut self.held,
                    capacity,
                    overflow,
                    HeldKey { code, row, col, life: Life::Held },
                );
            },
            Action::Layer(layer) => {
                self.shifts.push(Shift { layer, row, col });
            },
            Action::Macro(codes) => {
                let mut i: usize = 0;
                while i < codes.len()
                    invariant
                        i <= codes@.len(),
                        self.layers == old(self).layers,
                        self.capacity == capacity,
                        self.capacity == old(self).capacity,
                        self.overflow == old(self).overflow,
                        self.shifts == old(self).shifts,
                        self.waiting == old(self).waiting,
                        slot_count(self.held@) <= capacity,
                        self.held@ == insert_keys(
                            old(self).held@,
                            capacity as nat,
                            overflow,
                            codes@.take(i as int),
                            row,
                            col,
                        ),
                    decreases codes@.len() - i,
                {
                    proof {
                        assert(codes@.take(i + 1).drop_last() =~= codes@.take(i as int));
                    }
                    insert_into(
                        &mut self.held,
                        capacity,
                        overflow,
                        HeldKey { code: codes[i], row, col, life: Life::Held },
                    );
                    i += 1;
                }
                assert(codes@.take(i as int) =~= codes@);
            },
            Action::HoldTap { window, tap, hold } => {
                self.waiting.push(Waiting { row, col, age: 0, window, tap, hold });
            },
        }
        Effect::Pressed(action)
    }

    /// Handles a release.
    fn release(&mut self, row: usize, col: usize) -> (effect: Effect)
        requires
            old(self).wf(),
        ensures
            final(self).wf(),
            final(self).keymap() == old(self).keymap(),
            final(self).spec_capacity() == old(self).spec_capacity(),
            final(self).spec_overflow() == old(self).spec_overflow(),
            final(self)@ == release(
                old(self).spec_capacity(),
                old(self).spec_overflow(),
                old(self)@,
                row,
                col,
            ),
            effect == effect_of(
                old(self).keymap(),
                old(self)@,
                KeyEvent { row, col, pressed: false },
            ),
    {
        let tap = self.tap_at(row, col);
        let mut held: Vec<HeldKey> = Vec::new();
        let mut i: usize = 0;
        while i < self.held.len()
            invariant
                i <= self.held@.len(),
                held@ == without_key(self.held@.take(i as int), row, col),
            decreases self.held@.len() - i,
        {
            proof {
                assert(self.held@.take(i + 1).drop_last() =~= self.held@.take(i as int));
            }
            let key = self.held[i];
            if !(key.row == row && key.col == col && matches!(key.life, Life::Held)) {
                held.push(key);
            }
            i += 1;
        }
        assert(self.held@.take(i as int) =~= self.held@);
        proof {
            lemma_without_key_slots(self.held@, row, col);
        }
        let mut shifts: Vec<Shift> = Vec::new();
        let mut i: usize = 0;
        while i < self.shifts.len()
            invariant
                i <= self.shifts@.len(),
                shifts@ == without_shift(self.shifts@.take(i as int), row, col),
            decreases self.shifts@.len() - i,
        {
            proof {
                assert(self.shifts@.take(i + 1).drop_last() =~= self.shifts@.take(i as int));
            }
            let shift = self.shifts[i];
            if !(shift.row == row && shift.col == col) {
                shifts.push(shift);
            }
            i += 1;
        }
        assert(self.shifts@.take(i as int) =~= self.shifts@);
        let mut waiting: Vec<Waiting> = Vec::new();
        let mut i: usize = 0;
        while i < self.waiting.len()
            invariant
                i <= self.waiting@.len(),
                forall|j: int|
                    0 <= j < self.waiting@.len() ==> (#[trigger] self.waiting@[j]).age
                        <= self.waiting@[j].window,
                forall|j: int|
                    0 <= j < waiting@.len() ==> (#[trigger] waiting@[j]).age <= waiting@[j].window,
                waiting@ == without_waiting(self.waiting@.take(i as int), row, col),
            decreases self.waiting@.len() - i,
        {
            proof {
                assert(self.waiting@.take(i + 1).drop_last() =~= self.waiting@.take(i as int));
            }
            let w = self.waiting[i];
            if !(w.row == row && w.col == col) {
                waiting.push(w);
            }
            i += 1;
        }
        assert(self.waiting@.take(i as int) =~= self.waiting@);
        self.held = held;
        self.shifts = shifts;
        self.waiting = waiting;
        match tap {
            Some(code) => {
                let capacity: usize = self.capacity;
                let overflow = self.overflow;
                insert_into(
                    &mut self.held,
                    capacity,
                    overflow,
                    HeldKey { code, row, col, life: Life::Tap },
                );
                Effect::Tapped(code)
            },
            None => Effect::Released,
        }
    }

    /// Takes in one confirmed key event and says what it did. A press acts as
    /// the active layers bind the position; a release ends what the press of
    /// that position began, whatever has been pressed since.
    pub fn on_event(&mut self, event: KeyEvent) -> (effect: Effect)
        requires
            old(self).wf(),
        ensures
            final(self).wf(),
            final(self).keymap() == old(self).keymap(),
            final(self).spec_capacity() == old(self).spec_capacity(),
            final(self).spec_overflow() == old(self).spec_overflow(),
            final(self)@ == apply(
                old(self).keymap(),
                old(self).spec_capacity(),
                old(self).spec_overflow(),
                old(self)@,
                event,
            ),
            effect == effect_of(old(self).keymap(), old(self)@, event),
    {
        if event.pressed {
            self.press(event.row, event.col)
        } else {
            self.release(event.row, event.col)
        }
    }

    /// The key codes that are held down, oldest first.
    pub fn keycodes(&self) -> (codes: Vec<u8>)
        ensures
            codes@ == codes_of(self@.held),
    {
        let mut codes: Vec<u8> = Vec::new();
        let mut i: usize = 0;
        while i < self.held.len()
            invariant
                i <= self.held@.len(),
                codes@.len() == i,
                forall|j: int| 0 <= j < i ==> codes@[j] == self.held@[j].code,
            decreases self.held@.len() - i,
        {
            codes.push(self.held[i].code);
            i += 1;
        }
        assert(codes@ =~= codes_of(self.held@));
        codes
    }

    /// The active layers, the base layer first and the topmost last.
    pub fn active_layers(&self) -> (layers: Vec<usize>)
        ensures
            layers@ == layers_of(self@.shifts),
    {
        let mut layers: Vec<usize> = Vec::new();
        layers.push(0);
        let mut i: usize = 0;
        while i < self.shifts.len()
            invariant
                i <= self.shifts@.len(),
                layers@.len() == i + 1,
                layers@[0] == 0,
                forall|j: int| 1 <= j <= i ==> layers@[j] == self.shifts@[j - 1].layer,
            decreases self.shifts@.len() - i,
        {
            layers.push(self.shifts[i].layer);
            i += 1;
        }
        assert(layers@ =~= layers_of(self.shifts@));
        layers
    }

    /// Ends a tick: the hold-tap keys that have been down for their whole
    /// window act as their hold, and the taps that the last tick showed are
    /// gone. Returns the key codes that are held down, oldest first.
    pub fn advance(&mut self) -> (codes: Vec<u8>)
        requires
            old(self).wf(),
        ensures
            final(self).wf(),
            final(self).keymap() == old(self).keymap(),
            final(self).spec_capacity() == old(self).spec_capacity(),
            final(self).spec_overflow() == old(self).spec_overflow(),
            final(self)@ == tick(old(self).spec_capacity(), old(self).spec_overflow(), old(self)@),
            codes@ == codes_of(final(self)@.held),
    {
        let capacity: usize = self.capacity;
        let overflow = self.overflow;
        let mut held: Vec<HeldKey> = Vec::new();
        let mut i: usize = 0;
        while i < self.held.len()
            invariant
                i <= self.held@.len(),
                held@ == expire(self.held@.take(i as int)),
            decreases self.held@.len() - i,
        {
            proof {
                assert(self.held@.take(i + 1).drop_last() =~= self.held@.take(i as int));
            }
            let key = self.held[i];
            match key.life {
                Life::Spent => {},
                Life::Tap => {
                    held.push(
                        HeldKey { code: key.code, row: key.row, col: key.col, life: Life::Spent },
                    );
                },
                Life::Held => {
                    held.push(key);
                },
            }
            i += 1;
        }
        assert(self.held@.take(i as int) =~= self.held@);
        proof {
            lemma_expire_slots(self.held@);
        }
        self.held = held;
        let ghost start = State {
            held: self.held@,
            shifts: self.shifts@,
            waiting: old(self).waiting@,
        };
        let mut waiting: Vec<Waiting> = Vec::new();
        let mut i: usize = 0;
        while i < self.waiting.len()
            invariant
                i <= self.waiting@.len(),
                self.layers == old(self).layers,
                self.capacity == capacity,
                self.capacity == old(self).capacity,
                self.overflow == overflow,
                self.overflow == old(self).overflow,
                self.waiting == old(self).waiting,
                slot_count(self.held@) <= capacity,
                forall|j: int|
                    0 <= j < self.waiting@.len() ==> (#[trigger] self.waiting@[j]).age
                        <= self.waiting@[j].window,
                forall|j: int|
                    0 <= j < waiting@.len() ==> (#[trigger] waiting@[j]).age <= waiting@[j].window,
                (State { held: self.held@, shifts: self.shifts@, waiting: waiting@ }) == ripen(
                    start,
                    capacity as nat,
                    overflow,
                    self.waiting@.take(i as int),
                ),
            decreases self.waiting@.len() - i,
        {
            proof {
                assert(self.waiting@.take(i + 1).drop_last() =~= self.waiting@.take(i as int));
            }
            let w = self.waiting[i];
            if w.age >= w.window {
                match w.hold {
                    Hold::Key(code) => {
                        insert_into(
                            &mut self.held,
                            capacity,
                            overflow,
                            HeldKey { code, row: w.row, col: w.col, life: Life::Held },
                        );
                    },
                    Hold::Layer(layer) => {
                        self.shifts.push(Shift { layer, row: w.row, col: w.col });
                    },
                }
            } else {
                waiting.push(
                    Waiting {
                        row: w.row,
                        col: w.col,
                        age: w.age + 1,
                        window: w.window,
                        tap: w.tap,
                        hold: w.hold,
                    },
                );
            }
            i += 1;
        }
        assert(self.waiting@.take(i as int) =~= self.waiting@);
        self.waiting = waiting;
        self.keycodes()
    }
}

} // verus!
