//! What holds of the layout engine over whole sequences of inputs and of
//! ticks: the held set stays within its capacity and fits the report, the
//! layer stack is restored once every press has met its release, and a
//! hold-tap key is decided by its window.

use crate::debounce::KeyEvent;
use crate::layout::{
    ages_wf, apply, apply_all, codes_of, effect_of, expire, holds_key, holds_shift, insert_key,
    insert_keys, is_down, lemma_expire_slots, lemma_insert_key_bound, lemma_oldest_slot_exists,
    lemma_slot_count_push, lemma_slot_count_remove, lemma_without_key_slots, oldest_slot, press,
    release, resolve, ripen, slot_count, state_wf, tap_of, tick, without_key, without_shift,
    without_waiting, Action, Effect, HeldKey, Hold, Input, Life, Overflow, Shift, State, Waiting,
};
use crate::report::{lemma_or_zero, modifiers_of, report_bytes, slotted, takes_slot, SLOTS};
use vstd::prelude::*;

verus! {

/// The state after one input.
pub open spec fn feed(
    keymap: Seq<Vec<Vec<Action>>>,
    capacity: nat,
    overflow: Overflow,
    state: State,
    input: Input,
) -> State {
    match input {
        Input::Key(event) => apply(keymap, capacity, overflow, state, event),
        Input::Tick => tick(capacity, overflow, state),
    }
}

/// The state after a sequence of inputs, oldest first.
pub open spec fn run(
    keymap: Seq<Vec<Vec<Action>>>,
    capacity: nat,
    overflow: Overflow,
    state: State,
    inputs: Seq<Input>,
) -> State
    decreases inputs.len(),
{
    if inputs.len() == 0 {
        state
    } else {
        feed(
            keymap,
            capacity,
            overflow,
            run(keymap, capacity, overflow, state, inputs.drop_last()),
            inputs.last(),
        )
    }
}

/// A bundle that asks to enter a held set within its capacity leaves it
/// within its capacity.
proof fn lemma_insert_keys_bound(
    held: Seq<HeldKey>,
    capacity: nat,
    overflow: Overflow,
    codes: Seq<u8>,
    row: usize,
    col: usize,
)
    requires
        slot_count(held) <= capacity,
    ensures
        slot_count(insert_keys(held, capacity, overflow, codes, row, col)) <= capacity,
    decreases codes.len(),
{
    if codes.len() > 0 {
        lemma_insert_keys_bound(held, capacity, overflow, codes.drop_last(), row, col);
        lemma_insert_key_bound(
            insert_keys(held, capacity, overflow, codes.drop_last(), row, col),
            capacity,
            overflow,
            HeldKey { code: codes.last(), row, col, life: Life::Held },
        );
    }
}

/// The waiting keys that a release leaves are among those that were there.
proof fn lemma_without_waiting_ages(waiting: Seq<Waiting>, row: usize, col: usize)
    requires
        ages_wf(waiting),
    ensures
        ages_wf(without_waiting(waiting, row, col)),
    decreases waiting.len(),
{
    if waiting.len() > 0 {
        lemma_without_waiting_ages(waiting.drop_last(), row, col);
    }
}

/// A tick keeps the held set within its capacity and the waiting keys within
/// their windows.
proof fn lemma_ripen_wf(state: State, capacity: nat, overflow: Overflow, waiting: Seq<Waiting>)
    requires
        slot_count(state.held) <= capacity,
        ages_wf(waiting),
    ensures
        state_wf(ripen(state, capacity, overflow, waiting), capacity),
    decreases waiting.len(),
{
    if waiting.len() > 0 {
        lemma_ripen_wf(state, capacity, overflow, waiting.drop_last());
        let w = waiting.last();
        if let Hold::Key(code) = w.hold {
            lemma_insert_key_bound(
                ripen(state, capacity, overflow, waiting.drop_last()).held,
                capacity,
                overflow,
                HeldKey { code, row: w.row, col: w.col, life: Life::Held },
            );
        }
    }
}

/// One input leaves the held set within its capacity.
pub proof fn lemma_feed_wf(
    keymap: Seq<Vec<Vec<Action>>>,
    capacity: nat,
    overflow: Overflow,
    state: State,
    input: Input,
)
    requires
        state_wf(state, capacity),
    ensures
        state_wf(feed(keymap, capacity, overflow, state, input), capacity),
{
    match input {
        Input::Key(event) => {
            if event.pressed {
                match resolve(keymap, state.shifts, event.row as int, event.col as int) {
                    Action::Macro(codes) => {
                        lemma_insert_keys_bound(
                            state.held,
                            capacity,
                            overflow,
                            codes@,
                            event.row,
                            event.col,
                        );
                    },
                    Action::Key(code) => {
                        lemma_insert_key_bound(
                            state.held,
                            capacity,
                            overflow,
                            HeldKey { code, row: event.row, col: event.col, life: Life::Held },
                        );
                    },
                    _ => {},
                }
            } else {
                lemma_without_key_slots(state.held, event.row, event.col);
                if let Some(code) = tap_of(state.waiting, event.row, event.col) {
                    lemma_insert_key_bound(
                        without_key(state.held, event.row, event.col),
                        capacity,
                        overflow,
                        HeldKey { code, row: event.row, col: event.col, life: Life::Tap },
                    );
                }
                lemma_without_waiting_ages(state.waiting, event.row, event.col);
            }
        },
        Input::Tick => {
            lemma_expire_slots(state.held);
            lemma_ripen_wf(
                State { held: expire(state.held), shifts: state.shifts, waiting: state.waiting },
                capacity,
                overflow,
                state.waiting,
            );
        },
    }
}

/// The bound of the held set. Whatever sequence of presses, releases and
/// ticks the engine takes in, the held set never holds more keys that take a
/// slot than its capacity.
pub proof fn lemma_held_within_capacity(
    keymap: Seq<Vec<Vec<Action>>>,
    capacity: nat,
    overflow: Overflow,
    state: State,
    inputs: Seq<Input>,
)
    requires
        state_wf(state, capacity),
    ensures
        state_wf(run(keymap, capacity, overflow, state, inputs), capacity),
        slot_count(run(keymap, capacity, overflow, state, inputs).held) <= capacity,
    decreases inputs.len(),
{
    if inputs.len() > 0 {
        lemma_held_within_capacity(keymap, capacity, overflow, state, inputs.drop_last());
        lemma_feed_wf(
            keymap,
            capacity,
            overflow,
            run(keymap, capacity, overflow, state, inputs.drop_last()),
            inputs.last(),
        );
    }
}

/// The order of truncation. A key that takes no slot always enters, at the
/// end. When as many keys take a slot as the capacity allows and another one
/// asks to enter, a held set that rejects the newest stays as it is; one that
/// drops the oldest loses the oldest key that takes a slot and no other,
/// takes the new key in at the end, and is as full as before.
pub proof fn lemma_truncation_order(
    held: Seq<HeldKey>,
    capacity: nat,
    overflow: Overflow,
    key: HeldKey,
)
    requires
        slot_count(held) == capacity,
        capacity > 0,
    ensures
        !takes_slot(key.code) ==> insert_key(held, capacity, overflow, key) == held.push(key),
        takes_slot(key.code) && overflow is RejectNewest ==> insert_key(
            held,
            capacity,
            overflow,
            key,
        ) == held,
        takes_slot(key.code) && overflow is DropOldest ==> {
            &&& 0 <= oldest_slot(held) < held.len()
            &&& takes_slot(held[oldest_slot(held)].code)
            &&& forall|j: int| 0 <= j < oldest_slot(held) ==> !takes_slot((#[trigger] held[j]).code)
            &&& insert_key(held, capacity, overflow, key) == held.remove(oldest_slot(held)).push(
                key,
            )
            &&& slot_count(insert_key(held, capacity, overflow, key)) == capacity
        },
{
    lemma_oldest_slot_exists(held);
    lemma_slot_count_remove(held, oldest_slot(held));
    lemma_slot_count_push(held.remove(oldest_slot(held)), key);
}

/// The keys of a held set that take a slot are the codes of its report that
/// take one, as many and in their order.
pub proof fn lemma_slotted_codes(held: Seq<HeldKey>)
    ensures
        slotted(codes_of(held)).len() == slot_count(held),
    decreases held.len(),
{
    if held.len() > 0 {
        lemma_slotted_codes(held.drop_last());
        assert(codes_of(held).drop_last() =~= codes_of(held.drop_last()));
    }
}

/// The report leaves no held key out. A held set within the capacity of an
/// engine has a key slot for each of its keys that take one: they stand in
/// the slots in their order, oldest first.
pub proof fn lemma_report_holds_every_key(held: Seq<HeldKey>, capacity: nat, i: int)
    requires
        slot_count(held) <= capacity,
        capacity <= SLOTS,
        0 <= i < slot_count(held),
    ensures
        slotted(codes_of(held)).len() == slot_count(held),
        i < SLOTS,
        report_bytes(codes_of(held))[i + 1] == slotted(codes_of(held))[i],
{
    lemma_slotted_codes(held);
}

/// Whether an input is a key event at the position.
pub open spec fn touches(input: Input, row: usize, col: usize) -> bool {
    input matches Input::Key(event) && event.row == row && event.col == col
}

/// Whether no input is a key event at the position.
pub open spec fn untouched(inputs: Seq<Input>, row: usize, col: usize) -> bool {
    forall|i: int| 0 <= i < inputs.len() ==> !touches(#[trigger] inputs[i], row, col)
}

/// Whether the last key event at the position is a release, or the inputs
/// hold no key event at it.
pub open spec fn released_last(inputs: Seq<Input>, row: usize, col: usize) -> bool
    decreases inputs.len(),
{
    if inputs.len() == 0 {
        true
    } else if touches(inputs.last(), row, col) {
        !inputs.last()->Key_0.pressed
    } else {
        released_last(inputs.drop_last(), row, col)
    }
}

/// Whether every layer from index `from` on was shifted to by a position that
/// is still down after the inputs.
pub open spec fn shifts_down(inputs: Seq<Input>, shifts: Seq<Shift>, from: int) -> bool {
    forall|i: int|
        from <= i < shifts.len() ==> !released_last(
            inputs,
            (#[trigger] shifts[i]).row,
            shifts[i].col,
        )
}

/// Whether every waiting key is still down after the inputs.
pub open spec fn waiting_down(inputs: Seq<Input>, waiting: Seq<Waiting>) -> bool {
    forall|i: int|
        0 <= i < waiting.len() ==> !released_last(
            inputs,
            (#[trigger] waiting[i]).row,
            waiting[i].col,
        )
}

/// Whether no layer among the first `upto` was shifted to by the position.
pub open spec fn shifts_clear(shifts: Seq<Shift>, upto: int, row: usize, col: usize) -> bool {
    forall|i: int| 0 <= i < upto ==> !((#[trigger] shifts[i]).row == row && shifts[i].col == col)
}

/// A release of a position that shifted to no layer leaves the stack alone.
proof fn lemma_without_shift_identity(shifts: Seq<Shift>, row: usize, col: usize)
    requires
        shifts_clear(shifts, shifts.len() as int, row, col),
    ensures
        without_shift(shifts, row, col) == shifts,
    decreases shifts.len(),
{
    if shifts.len() > 0 {
        assert(shifts_clear(shifts.drop_last(), shifts.len() - 1, row, col)) by {
            assert forall|i: int| 0 <= i < shifts.len() - 1 implies !((
            #[trigger] shifts.drop_last()[i]).row == row && shifts.drop_last()[i].col == col) by {
                assert(shifts.drop_last()[i] == shifts[i]);
            }
        }
        lemma_without_shift_identity(shifts.drop_last(), row, col);
        assert(shifts.drop_last().push(shifts.last()) =~= shifts);
    }
}

/// A release leaves the bottom of the stack alone where the position shifted
/// to none of its layers, and what it leaves above was there before and was
/// shifted to by other positions.
proof fn lemma_without_shift_keeps(
    inputs: Seq<Input>,
    shifts: Seq<Shift>,
    bottom: int,
    row: usize,
    col: usize,
)
    requires
        0 <= bottom <= shifts.len(),
        shifts_clear(shifts, bottom, row, col),
        shifts_down(inputs, shifts, bottom),
    ensures
        without_shift(shifts, row, col).len() >= bottom,
        without_shift(shifts, row, col).take(bottom) == shifts.take(bottom),
        shifts_down(inputs, without_shift(shifts, row, col), bottom),
        forall|i: int|
            bottom <= i < without_shift(shifts, row, col).len() ==> !((#[trigger] without_shift(
                shifts,
                row,
                col,
            )[i]).row == row && without_shift(shifts, row, col)[i].col == col),
    decreases shifts.len(),
{
    if shifts.len() == bottom {
        lemma_without_shift_identity(shifts, row, col);
    } else {
        let rest = shifts.drop_last();
        assert(shifts_clear(rest, bottom, row, col)) by {
            assert forall|i: int| 0 <= i < bottom implies !((#[trigger] rest[i]).row == row
                && rest[i].col == col) by {
                assert(rest[i] == shifts[i]);
            }
        }
        assert(shifts_down(inputs, rest, bottom)) by {
            assert forall|i: int| bottom <= i < rest.len() implies !released_last(
                inputs,
                (#[trigger] rest[i]).row,
                rest[i].col,
            ) by {
                assert(rest[i] == shifts[i]);
            }
        }
        lemma_without_shift_keeps(inputs, rest, bottom, row, col);
        let kept = without_shift(rest, row, col);
        let all = without_shift(shifts, row, col);
        assert(rest.take(bottom) =~= shifts.take(bottom));
        assert(all.take(bottom) =~= kept.take(bottom));
        assert forall|i: int| bottom <= i < all.len() implies !released_last(
            inputs,
            (#[trigger] all[i]).row,
            all[i].col,
        ) && !(all[i].row == row && all[i].col == col) by {
            if i < kept.len() {
                assert(all[i] == kept[i]);
            } else {
                assert(all[i] == shifts[shifts.len() - 1]);
            }
        }
    }
}

/// The waiting keys that a release leaves were there before and belong to
/// other positions.
proof fn lemma_without_waiting_keeps(
    inputs: Seq<Input>,
    waiting: Seq<Waiting>,
    row: usize,
    col: usize,
)
    requires
        waiting_down(inputs, waiting),
    ensures
        waiting_down(inputs, without_waiting(waiting, row, col)),
        forall|i: int|
            0 <= i < without_waiting(waiting, row, col).len() ==> !((#[trigger] without_waiting(
                waiting,
                row,
                col,
            )[i]).row == row && without_waiting(waiting, row, col)[i].col == col),
    decreases waiting.len(),
{
    if waiting.len() > 0 {
        let rest = waiting.drop_last();
        assert(waiting_down(inputs, rest)) by {
            assert forall|i: int| 0 <= i < rest.len() implies !released_last(
                inputs,
                (#[trigger] rest[i]).row,
                rest[i].col,
            ) by {
                assert(rest[i] == waiting[i]);
            }
        }
        lemma_without_waiting_keeps(inputs, rest, row, col);
        let kept = without_waiting(rest, row, col);
        let all = without_waiting(waiting, row, col);
        assert forall|i: int| 0 <= i < all.len() implies !released_last(
            inputs,
            (#[trigger] all[i]).row,
            all[i].col,
        ) && !(all[i].row == row && all[i].col == col) by {
            if i < kept.len() {
                assert(all[i] == kept[i]);
            } else {
                assert(all[i] == waiting[waiting.len() - 1]);
            }
        }
    }
}

/// A tick leaves the stack that it found at the bottom, and what it shifts to
/// and leaves waiting belongs to positions that were waiting.
proof fn lemma_ripen_keeps(
    inputs: Seq<Input>,
    state: State,
    capacity: nat,
    overflow: Overflow,
    waiting: Seq<Waiting>,
    bottom: int,
)
    requires
        0 <= bottom <= state.shifts.len(),
        shifts_down(inputs, state.shifts, bottom),
        waiting_down(inputs, waiting),
    ensures
        ripen(state, capacity, overflow, waiting).shifts.len() >= bottom,
        ripen(state, capacity, overflow, waiting).shifts.take(bottom) == state.shifts.take(bottom),
        shifts_down(inputs, ripen(state, capacity, overflow, waiting).shifts, bottom),
        waiting_down(inputs, ripen(state, capacity, overflow, waiting).waiting),
    decreases waiting.len(),
{
    if waiting.len() > 0 {
        let rest = waiting.drop_last();
        assert(waiting_down(inputs, rest)) by {
            assert forall|i: int| 0 <= i < rest.len() implies !released_last(
                inputs,
                (#[trigger] rest[i]).row,
                rest[i].col,
            ) by {
                assert(rest[i] == waiting[i]);
            }
        }
        lemma_ripen_keeps(inputs, state, capacity, overflow, rest, bottom);
        let prev = ripen(state, capacity, overflow, rest);
        let next = ripen(state, capacity, overflow, waiting);
        let w = waiting[waiting.len() - 1];
        assert(!released_last(inputs, w.row, w.col));
        assert(next.shifts.take(bottom) =~= prev.shifts.take(bottom));
        assert forall|i: int| bottom <= i < next.shifts.len() implies !released_last(
            inputs,
            (#[trigger] next.shifts[i]).row,
            next.shifts[i].col,
        ) by {
            if i < prev.shifts.len() {
                assert(next.shifts[i] == prev.shifts[i]);
            }
        }
        assert forall|i: int| 0 <= i < next.waiting.len() implies !released_last(
            inputs,
            (#[trigger] next.waiting[i]).row,
            next.waiting[i].col,
        ) by {
            if i < prev.waiting.len() {
                assert(next.waiting[i] == prev.waiting[i]);
            }
        }
    }
}

/// Whether the inputs hold no key event at a position that has shifted to one
/// of the layers.
pub open spec fn shifts_untouched(inputs: Seq<Input>, shifts: Seq<Shift>) -> bool {
    forall|i: int|
        0 <= i < shifts.len() ==> untouched(inputs, (#[trigger] shifts[i]).row, shifts[i].col)
}

/// After any inputs the stack still has at its bottom the layers that it
/// began with, and every layer above them, like every waiting key, belongs to
/// a position whose press has not been followed by its release.
proof fn lemma_layers_tracked(
    keymap: Seq<Vec<Vec<Action>>>,
    capacity: nat,
    overflow: Overflow,
    state: State,
    inputs: Seq<Input>,
)
    requires
        state.waiting.len() == 0,
        shifts_untouched(inputs, state.shifts),
    ensures
        run(keymap, capacity, overflow, state, inputs).shifts.len() >= state.shifts.len(),
        run(keymap, capacity, overflow, state, inputs).shifts.take(state.shifts.len() as int)
            == state.shifts,
        shifts_down(
            inputs,
            run(keymap, capacity, overflow, state, inputs).shifts,
            state.shifts.len() as int,
        ),
        waiting_down(inputs, run(keymap, capacity, overflow, state, inputs).waiting),
    decreases inputs.len(),
{
    let bottom = state.shifts.len() as int;
    if inputs.len() == 0 {
        assert(state.shifts.take(bottom) =~= state.shifts);
    } else {
        let earlier = inputs.drop_last();
        let input = inputs.last();
        assert(shifts_untouched(earlier, state.shifts)) by {
            assert forall|i: int| 0 <= i < state.shifts.len() implies untouched(
                earlier,
                (#[trigger] state.shifts[i]).row,
                state.shifts[i].col,
            ) by {
                assert(untouched(inputs, state.shifts[i].row, state.shifts[i].col));
                assert forall|j: int| 0 <= j < earlier.len() implies !touches(
                    #[trigger] earlier[j],
                    state.shifts[i].row,
                    state.shifts[i].col,
                ) by {
                    assert(earlier[j] == inputs[j]);
                }
            }
        }
        lemma_layers_tracked(keymap, capacity, overflow, state, earlier);
        let prev = run(keymap, capacity, overflow, state, earlier);
        let next = run(keymap, capacity, overflow, state, inputs);
        match input {
            Input::Tick => {
                let start = State {
                    held: expire(prev.held),
                    shifts: prev.shifts,
                    waiting: prev.waiting,
                };
                lemma_ripen_keeps(earlier, start, capacity, overflow, prev.waiting, bottom);
                assert(next.shifts.take(bottom) =~= state.shifts);
            },
            Input::Key(event) => {
                if event.pressed {
                    assert(next.shifts.take(bottom) =~= prev.shifts.take(bottom));
                    assert forall|i: int| bottom <= i < next.shifts.len() implies !released_last(
                        inputs,
                        (#[trigger] next.shifts[i]).row,
                        next.shifts[i].col,
                    ) by {
                        if i < prev.shifts.len() {
                            assert(next.shifts[i] == prev.shifts[i]);
                        }
                    }
                    assert forall|i: int| 0 <= i < next.waiting.len() implies !released_last(
                        inputs,
                        (#[trigger] next.waiting[i]).row,
                        next.waiting[i].col,
                    ) by {
                        if i < prev.waiting.len() {
                            assert(next.waiting[i] == prev.waiting[i]);
                        }
                    }
                } else {
                    assert(shifts_clear(prev.shifts, bottom, event.row, event.col)) by {
                        assert forall|i: int| 0 <= i < bottom implies !((
                        #[trigger] prev.shifts[i]).row == event.row && prev.shifts[i].col
                            == event.col) by {
                            assert(prev.shifts[i] == prev.shifts.take(bottom)[i]);
                            assert(untouched(inputs, state.shifts[i].row, state.shifts[i].col));
                            assert(!touches(
                                inputs[inputs.len() - 1],
                                state.shifts[i].row,
                                state.shifts[i].col,
                            ));
                        }
                    }
                    lemma_without_shift_keeps(earlier, prev.shifts, bottom, event.row, event.col);
                    lemma_without_waiting_keeps(earlier, prev.waiting, event.row, event.col);
                    assert(next.shifts.take(bottom) =~= state.shifts);
                }
            },
        }
    }
}

/// The layer stack is restored. Take a state in which no hold-tap key is
/// waiting, and any interleaving of presses, releases and ticks that touches
/// no position which had shifted to a layer before. Every layer above the
/// ones that were active then belongs to a position that is still down, and
/// once each press has been followed by the release of its position, the
/// stack is the one that the sequence began with.
pub proof fn lemma_layers_restored(
    keymap: Seq<Vec<Vec<Action>>>,
    capacity: nat,
    overflow: Overflow,
    state: State,
    inputs: Seq<Input>,
)
    requires
        state.waiting.len() == 0,
        shifts_untouched(inputs, state.shifts),
    ensures
        shifts_down(
            inputs,
            run(keymap, capacity, overflow, state, inputs).shifts,
            state.shifts.len() as int,
        ),
        (forall|row: usize, col: usize| released_last(inputs, row, col)) ==> run(
            keymap,
            capacity,
            overflow,
            state,
            inputs,
        ).shifts == state.shifts,
{
    lemma_layers_tracked(keymap, capacity, overflow, state, inputs);
    let after = run(keymap, capacity, overflow, state, inputs).shifts;
    if forall|row: usize, col: usize| released_last(inputs, row, col) {
        if after.len() > state.shifts.len() {
            let top = after[after.len() - 1];
            assert(released_last(inputs, top.row, top.col));
        }
        assert(after.take(state.shifts.len() as int) =~= after);
    }
}

/// A release pops its own layer. Where a position has shifted to one layer,
/// its release takes exactly that layer out of the stack, wherever other
/// positions have put theirs, and leaves those in their order.
pub proof fn lemma_release_pops_own(below: Seq<Shift>, own: Shift, above: Seq<Shift>)
    requires
        shifts_clear(below, below.len() as int, own.row, own.col),
        shifts_clear(above, above.len() as int, own.row, own.col),
    ensures
        without_shift(below.push(own) + above, own.row, own.col) == below + above,
    decreases above.len(),
{
    if above.len() == 0 {
        assert(below.push(own) + above =~= below.push(own));
        assert(below.push(own).drop_last() =~= below);
        lemma_without_shift_identity(below, own.row, own.col);
        assert(below + above =~= below);
    } else {
        let rest = above.drop_last();
        assert(shifts_clear(rest, rest.len() as int, own.row, own.col)) by {
            assert forall|i: int| 0 <= i < rest.len() implies !((#[trigger] rest[i]).row
                == own.row && rest[i].col == own.col) by {
                assert(rest[i] == above[i]);
            }
        }
        lemma_release_pops_own(below, own, rest);
        assert((below.push(own) + above).drop_last() =~= below.push(own) + rest);
        assert((below.push(own) + above).last() == above[above.len() - 1]);
        assert((below + rest).push(above.last()) =~= below + above);
    }
}

/// The state after a number of ticks without a key event.
pub open spec fn ticks(capacity: nat, overflow: Overflow, state: State, k: nat) -> State
    decreases k,
{
    if k == 0 {
        state
    } else {
        tick(capacity, overflow, ticks(capacity, overflow, state, (k - 1) as nat))
    }
}

/// A waiting key that has seen `k` more ticks.
pub open spec fn aged(w: Waiting, k: nat) -> Waiting {
    Waiting {
        row: w.row,
        col: w.col,
        age: (w.age + k) as u16,
        window: w.window,
        tap: w.tap,
        hold: w.hold,
    }
}

/// A hold-tap key waits for its window. While the one hold-tap key that is
/// down has not seen more ticks than its window, it is still undecided: it
/// has shifted to no layer, and it only grows older.
pub proof fn lemma_hold_tap_waits(
    capacity: nat,
    overflow: Overflow,
    state: State,
    w: Waiting,
    k: nat,
)
    requires
        state.waiting == seq![w],
        w.age + k <= w.window,
    ensures
        ticks(capacity, overflow, state, k).waiting == seq![aged(w, k)],
        ticks(capacity, overflow, state, k).shifts == state.shifts,
    decreases k,
{
    if k == 0 {
        assert(seq![aged(w, 0)] =~= seq![w]);
    } else {
        lemma_hold_tap_waits(capacity, overflow, state, w, (k - 1) as nat);
        let prev = ticks(capacity, overflow, state, (k - 1) as nat);
        let start = State { held: expire(prev.held), shifts: prev.shifts, waiting: prev.waiting };
        reveal_with_fuel(ripen, 3);
        assert(prev.waiting.drop_last() =~= Seq::<Waiting>::empty());
        assert(prev.waiting.last() == aged(w, (k - 1) as nat));
        assert(ripen(start, capacity, overflow, prev.waiting).waiting =~= seq![aged(w, k)]);
    }
}

/// A hold-tap key that is held past its window acts as its hold. The tick
/// that finds the one hold-tap key that is down as old as its window ends
/// its wait: the key shifts to its layer, or asks for its key to enter the
/// held set, and its release is no tap any more.
pub proof fn lemma_hold_tap_holds(capacity: nat, overflow: Overflow, state: State, w: Waiting)
    requires
        state.waiting == seq![w],
        w.age >= w.window,
    ensures
        tick(capacity, overflow, state).waiting == Seq::<Waiting>::empty(),
        tap_of(tick(capacity, overflow, state).waiting, w.row, w.col) is None,
        w.hold matches Hold::Layer(layer) ==> {
            &&& tick(capacity, overflow, state).shifts == state.shifts.push(
                Shift { layer, row: w.row, col: w.col },
            )
            &&& tick(capacity, overflow, state).held == expire(state.held)
        },
        w.hold matches Hold::Key(code) ==> {
            &&& tick(capacity, overflow, state).shifts == state.shifts
            &&& tick(capacity, overflow, state).held == insert_key(
                expire(state.held),
                capacity,
                overflow,
                HeldKey { code, row: w.row, col: w.col, life: Life::Held },
            )
        },
{
    reveal_with_fuel(ripen, 3);
    assert(state.waiting.drop_last() =~= Seq::<Waiting>::empty());
    assert(state.waiting.last() == w);
}

/// A hold-tap key that is released while it waits is a tap. The release of
/// the one hold-tap key that is down and undecided ends its wait and has its
/// tap ask to enter the held set; the key shifts to no layer, then or at any
/// tick after.
pub proof fn lemma_hold_tap_taps(
    keymap: Seq<Vec<Vec<Action>>>,
    capacity: nat,
    overflow: Overflow,
    state: State,
    w: Waiting,
    k: nat,
)
    requires
        state.waiting == seq![w],
    ensures
        effect_of(keymap, state, KeyEvent { row: w.row, col: w.col, pressed: false })
            == Effect::Tapped(w.tap),
        release(capacity, overflow, state, w.row, w.col).held == insert_key(
            without_key(state.held, w.row, w.col),
            capacity,
            overflow,
            HeldKey { code: w.tap, row: w.row, col: w.col, life: Life::Tap },
        ),
        release(capacity, overflow, state, w.row, w.col).shifts == without_shift(
            state.shifts,
            w.row,
            w.col,
        ),
        ticks(capacity, overflow, release(capacity, overflow, state, w.row, w.col), k).waiting
            == Seq::<Waiting>::empty(),
        ticks(capacity, overflow, release(capacity, overflow, state, w.row, w.col), k).shifts
            == without_shift(state.shifts, w.row, w.col),
{
    reveal_with_fuel(tap_of, 3);
    reveal_with_fuel(without_waiting, 3);
    assert(state.waiting.drop_last() =~= Seq::<Waiting>::empty());
    assert(state.waiting.last() == w);
    let after = release(capacity, overflow, state, w.row, w.col);
    assert(after.waiting =~= Seq::<Waiting>::empty());
    lemma_idle_ticks(capacity, overflow, after, k);
}

/// Ticks decide nothing where no hold-tap key waits.
proof fn lemma_idle_ticks(capacity: nat, overflow: Overflow, state: State, k: nat)
    requires
        state.waiting == Seq::<Waiting>::empty(),
    ensures
        ticks(capacity, overflow, state, k).waiting == Seq::<Waiting>::empty(),
        ticks(capacity, overflow, state, k).shifts == state.shifts,
    decreases k,
{
    if k > 0 {
        lemma_idle_ticks(capacity, overflow, state, (k - 1) as nat);
    }
}

/// A tap shows once. The start of the next tick marks a tap that a release
/// has left in the held set as shown, and leaves no tap fresh; the start of
/// the tick after that leaves no shown tap behind.
pub proof fn lemma_tap_shows_once(held: Seq<HeldKey>, i: int)
    requires
        0 <= i < held.len(),
        held[i].life is Tap,
    ensures
        expire(held).contains(
            HeldKey { code: held[i].code, row: held[i].row, col: held[i].col, life: Life::Spent },
        ),
        forall|j: int|
            0 <= j < expire(expire(held)).len() ==> !(expire(expire(held))[j].life is Spent),
        forall|j: int| 0 <= j < expire(held).len() ==> !(expire(held)[j].life is Tap),
    decreases held.len(),
{
    lemma_expire_lives(held);
    lemma_expire_lives(expire(held));
    let shown = HeldKey {
        code: held[i].code,
        row: held[i].row,
        col: held[i].col,
        life: Life::Spent,
    };
    if i == held.len() - 1 {
        assert(expire(held)[expire(held).len() - 1] == shown);
    } else {
        lemma_tap_shows_once(held.drop_last(), i);
        let rest = expire(held.drop_last());
        let j = choose|j: int| 0 <= j < rest.len() && rest[j] == shown;
        assert(expire(held)[j] == shown);
    }
}

/// After the start of a tick no tap is fresh, and a spent tap was a fresh
/// one before.
proof fn lemma_expire_lives(held: Seq<HeldKey>)
    ensures
        forall|j: int| 0 <= j < expire(held).len() ==> !((#[trigger] expire(held)[j]).life is Tap),
        (forall|j: int| 0 <= j < held.len() ==> !((#[trigger] held[j]).life is Tap)) ==> (forall|
            j: int,
        | 0 <= j < expire(held).len() ==> !((#[trigger] expire(held)[j]).life is Spent)),
    decreases held.len(),
{
    if held.len() > 0 {
        let rest = held.drop_last();
        lemma_expire_lives(rest);
        assert forall|j: int| 0 <= j < expire(held).len() implies !((#[trigger] expire(
            held,
        )[j]).life is Tap) by {
            if j < expire(rest).len() {
                assert(expire(held)[j] == expire(rest)[j]);
            }
        }
        if forall|j: int| 0 <= j < held.len() ==> !((#[trigger] held[j]).life is Tap) {
            assert forall|j: int| 0 <= j < rest.len() implies !((#[trigger] rest[j]).life
                is Tap) by {
                assert(rest[j] == held[j]);
            }
            assert(!(held[held.len() - 1].life is Tap));
            assert forall|j: int| 0 <= j < expire(held).len() implies !((#[trigger] expire(
                held,
            )[j]).life is Spent) by {
                if j < expire(rest).len() {
                    assert(expire(held)[j] == expire(rest)[j]);
                }
            }
        }
    }
}

/// The layout after a tick that confirms `events`: it takes them in, oldest
/// first, and ends the tick.
pub open spec fn tick_layout(
    keymap: Seq<Vec<Vec<Action>>>,
    capacity: nat,
    overflow: Overflow,
    state: State,
    events: Seq<KeyEvent>,
) -> State {
    tick(capacity, overflow, apply_all(keymap, capacity, overflow, state, events))
}

/// The layout after a sequence of ticks, oldest first, each with the events
/// that it confirms.
pub open spec fn after_ticks(
    keymap: Seq<Vec<Vec<Action>>>,
    capacity: nat,
    overflow: Overflow,
    state: State,
    schedule: Seq<Seq<KeyEvent>>,
) -> State
    decreases schedule.len(),
{
    if schedule.len() == 0 {
        state
    } else {
        tick_layout(
            keymap,
            capacity,
            overflow,
            after_ticks(keymap, capacity, overflow, state, schedule.drop_last()),
            schedule.last(),
        )
    }
}

/// Whether every key of a held set stays until its release: no tap is in it.
pub open spec fn all_held(held: Seq<HeldKey>) -> bool {
    forall|i: int| 0 <= i < held.len() ==> (#[trigger] held[i]).life is Held
}

/// The ticks in which a key is pressed and then held: the tick that confirms
/// its press, and `quiet` ticks that confirm nothing.
pub open spec fn held_down(row: usize, col: usize, quiet: nat) -> Seq<Seq<KeyEvent>> {
    Seq::new(
        quiet + 1,
        |i: int|
            if i == 0 {
                seq![KeyEvent { row, col, pressed: true }]
            } else {
                Seq::<KeyEvent>::empty()
            },
    )
}

/// The ticks in which a key is pressed, held and released: those of
/// `held_down`, and the tick that confirms its release.
pub open spec fn tapped(row: usize, col: usize, quiet: nat) -> Seq<Seq<KeyEvent>> {
    held_down(row, col, quiet).push(seq![KeyEvent { row, col, pressed: false }])
}

/// The layout in which a hold-tap key has acted as its hold.
pub open spec fn holding(
    capacity: nat,
    overflow: Overflow,
    state: State,
    row: usize,
    col: usize,
    hold: Hold,
) -> State {
    match hold {
        Hold::Key(code) => State {
            held: insert_key(
                state.held,
                capacity,
                overflow,
                HeldKey { code, row, col, life: Life::Held },
            ),
            shifts: state.shifts,
            waiting: Seq::empty(),
        },
        Hold::Layer(layer) => State {
            held: state.held,
            shifts: state.shifts.push(Shift { layer, row, col }),
            waiting: Seq::empty(),
        },
    }
}

/// The start of a tick leaves a held set without taps as it is.
proof fn lemma_expire_all_held(held: Seq<HeldKey>)
    requires
        all_held(held),
    ensures
        expire(held) == held,
    decreases held.len(),
{
    if held.len() > 0 {
        let rest = held.drop_last();
        assert(all_held(rest)) by {
            assert forall|i: int| 0 <= i < rest.len() implies (#[trigger] rest[i]).life is Held by {
                assert(rest[i] == held[i]);
            }
        }
        lemma_expire_all_held(rest);
        assert(held[held.len() - 1].life is Held);
        assert(rest.push(held.last()) =~= held);
    }
}

/// The release of a position that holds no key leaves the held set as it is.
proof fn lemma_without_key_identity(held: Seq<HeldKey>, row: usize, col: usize)
    requires
        !holds_key(held, row, col),
    ensures
        without_key(held, row, col) == held,
    decreases held.len(),
{
    if held.len() > 0 {
        let rest = held.drop_last();
        assert(!holds_key(rest, row, col)) by {
            if holds_key(rest, row, col) {
                let i = choose|i: int|
                    0 <= i < rest.len() && (#[trigger] rest[i]).row == row && rest[i].col == col
                        && rest[i].life is Held;
                assert(held[i] == rest[i]);
            }
        }
        lemma_without_key_identity(rest, row, col);
        let last = held[held.len() - 1];
        assert(!(last.row == row && last.col == col && last.life is Held));
        assert(rest.push(held.last()) =~= held);
    }
}

/// One tick of the one hold-tap key that is down, with no tap in the held
/// set: below its window the key is one tick older and nothing else has
/// changed; at its window it acts as its hold.
proof fn lemma_tick_one_waiting(capacity: nat, overflow: Overflow, state: State, w: Waiting)
    requires
        state.waiting == seq![w],
        all_held(state.held),
    ensures
        w.age < w.window ==> tick(capacity, overflow, state) == (State {
            held: state.held,
            shifts: state.shifts,
            waiting: seq![aged(w, 1)],
        }),
        w.age >= w.window ==> tick(capacity, overflow, state) == holding(
            capacity,
            overflow,
            state,
            w.row,
            w.col,
            w.hold,
        ),
{
    reveal_with_fuel(ripen, 3);
    lemma_expire_all_held(state.held);
    assert(state.waiting.drop_last() =~= Seq::<Waiting>::empty());
    assert(state.waiting.last() == w);
    let after = tick(capacity, overflow, state);
    if w.age < w.window {
        assert(after.waiting =~= seq![aged(w, 1)]);
    } else {
        assert(after.waiting =~= Seq::<Waiting>::empty());
    }
}

/// A hold-tap key is a hold at the tick of its window. Take a layout in
/// which no hold-tap key waits and no tap shows, and a position that is not
/// down and that the active layers bind to a hold-tap action. The tick with
/// its press counts as tick 0. While the key stays down and nothing else
/// happens, every tick before the one of its window leaves the held set and
/// the layer stack as they were before the press, with the key one tick
/// older; the tick of its window, which confirms no event, puts the hold in
/// effect and ends the wait, so that no release of the key is a tap.
pub proof fn lemma_hold_at_its_tick(
    keymap: Seq<Vec<Vec<Action>>>,
    capacity: nat,
    overflow: Overflow,
    state: State,
    row: usize,
    col: usize,
    window: u16,
    tap: u8,
    hold: Hold,
    quiet: nat,
)
    requires
        state.waiting == Seq::<Waiting>::empty(),
        all_held(state.held),
        !is_down(state, row, col),
        resolve(keymap, state.shifts, row as int, col as int) == (Action::HoldTap {
            window,
            tap,
            hold,
        }),
        quiet <= window,
    ensures
        quiet < window ==> after_ticks(
            keymap,
            capacity,
            overflow,
            state,
            held_down(row, col, quiet),
        ) == (State {
            held: state.held,
            shifts: state.shifts,
            waiting: seq![
                Waiting { row, col, age: (quiet + 1) as u16, window, tap, hold },
            ],
        }),
        quiet == window ==> after_ticks(
            keymap,
            capacity,
            overflow,
            state,
            held_down(row, col, quiet),
        ) == holding(capacity, overflow, state, row, col, hold),
        quiet == window ==> tap_of(
            after_ticks(keymap, capacity, overflow, state, held_down(row, col, quiet)).waiting,
            row,
            col,
        ) is None,
    decreases quiet,
{
    let schedule = held_down(row, col, quiet);
    let fresh = Waiting { row, col, age: 0, window, tap, hold };
    let after = after_ticks(keymap, capacity, overflow, state, schedule);
    if quiet == 0 {
        assert(schedule.drop_last() =~= Seq::<Seq<KeyEvent>>::empty());
        let events = schedule.last();
        assert(events =~= seq![KeyEvent { row, col, pressed: true }]);
        assert(events.drop_last() =~= Seq::<KeyEvent>::empty());
        reveal_with_fuel(apply_all, 3);
        reveal_with_fuel(after_ticks, 3);
        let pressed = apply_all(keymap, capacity, overflow, state, events);
        assert(pressed == press(keymap, capacity, overflow, state, row, col));
        assert(pressed.waiting =~= seq![fresh]);
        assert(pressed.held == state.held);
        assert(pressed.shifts == state.shifts);
        lemma_tick_one_waiting(capacity, overflow, pressed, fresh);
        assert(after == tick(capacity, overflow, pressed));
        if window > 0 {
            assert(aged(fresh, 1) == (Waiting { row, col, age: 1, window, tap, hold }));
        } else {
            assert(holding(capacity, overflow, pressed, row, col, hold) == holding(
                capacity,
                overflow,
                state,
                row,
                col,
                hold,
            ));
        }
    } else {
        lemma_hold_at_its_tick(
            keymap,
            capacity,
            overflow,
            state,
            row,
            col,
            window,
            tap,
            hold,
            (quiet - 1) as nat,
        );
        assert(schedule.drop_last() =~= held_down(row, col, (quiet - 1) as nat));
        assert(schedule.last() =~= Seq::<KeyEvent>::empty());
        let before = after_ticks(
            keymap,
            capacity,
            overflow,
            state,
            held_down(row, col, (quiet - 1) as nat),
        );
        let w = Waiting { row, col, age: quiet as u16, window, tap, hold };
        assert(before.waiting == seq![w]);
        lemma_tick_one_waiting(capacity, overflow, before, w);
        assert(apply_all(keymap, capacity, overflow, before, schedule.last()) == before);
        assert(after == tick(capacity, overflow, before));
        if quiet < window {
            assert(aged(w, 1) == (Waiting {
                row,
                col,
                age: (quiet + 1) as u16,
                window,
                tap,
                hold,
            }));
        }
        assert(holding(capacity, overflow, before, row, col, hold) == holding(
            capacity,
            overflow,
            state,
            row,
            col,
            hold,
        ));
    }
}

/// A hold-tap key is a tap at the tick of its release. Take a layout and a
/// position as in `lemma_hold_at_its_tick`, and let the held set have room
/// for the tap. Where the release of the key is confirmed before the tick of
/// its window ends the wait, the held set after that tick is the one from
/// before the press with the tap behind it, so that the report of that tick
/// carries the tap in the first free key slot and the modifiers that it had;
/// the layer stack is the one from before the press; and the next tick, if
/// it confirms nothing, leaves the layout as it was before the press: the
/// tap is gone, and the hold never came.
pub proof fn lemma_tap_at_its_tick(
    keymap: Seq<Vec<Vec<Action>>>,
    capacity: nat,
    overflow: Overflow,
    state: State,
    row: usize,
    col: usize,
    window: u16,
    tap: u8,
    hold: Hold,
    quiet: nat,
)
    requires
        state.waiting == Seq::<Waiting>::empty(),
        all_held(state.held),
        !is_down(state, row, col),
        resolve(keymap, state.shifts, row as int, col as int) == (Action::HoldTap {
            window,
            tap,
            hold,
        }),
        quiet < window,
        !takes_slot(tap) || slot_count(state.held) < capacity,
        capacity <= SLOTS,
    ensures
        after_ticks(keymap, capacity, overflow, state, tapped(row, col, quiet)) == (State {
            held: state.held.push(HeldKey { code: tap, row, col, life: Life::Spent }),
            shifts: state.shifts,
            waiting: Seq::empty(),
        }),
        takes_slot(tap) ==> {
            let codes = codes_of(
                after_ticks(keymap, capacity, overflow, state, tapped(row, col, quiet)).held,
            );
            &&& report_bytes(codes)[slot_count(state.held) as int + 1] == tap
            &&& modifiers_of(codes) == modifiers_of(codes_of(state.held))
        },
        after_ticks(
            keymap,
            capacity,
            overflow,
            state,
            tapped(row, col, quiet).push(Seq::empty()),
        ) == state,
{
    let schedule = tapped(row, col, quiet);
    let w = Waiting { row, col, age: (quiet + 1) as u16, window, tap, hold };
    lemma_hold_at_its_tick(keymap, capacity, overflow, state, row, col, window, tap, hold, quiet);
    assert(schedule.drop_last() =~= held_down(row, col, quiet));
    let before = after_ticks(keymap, capacity, overflow, state, held_down(row, col, quiet));
    assert(before.waiting == seq![w]);
    let events = schedule.last();
    assert(events.drop_last() =~= Seq::<KeyEvent>::empty());
    reveal_with_fuel(apply_all, 3);
    reveal_with_fuel(tap_of, 3);
    reveal_with_fuel(without_waiting, 3);
    reveal_with_fuel(ripen, 2);
    let released = apply_all(keymap, capacity, overflow, before, events);
    assert(released == release(capacity, overflow, before, row, col));
    assert(before.waiting.drop_last() =~= Seq::<Waiting>::empty());
    lemma_without_key_identity(state.held, row, col);
    assert(shifts_clear(state.shifts, state.shifts.len() as int, row, col)) by {
        assert forall|i: int| 0 <= i < state.shifts.len() implies !((
        #[trigger] state.shifts[i]).row == row && state.shifts[i].col == col) by {
            assert(!holds_shift(state.shifts, row, col));
        }
    }
    lemma_without_shift_identity(state.shifts, row, col);
    let fresh = HeldKey { code: tap, row, col, life: Life::Tap };
    let shown = HeldKey { code: tap, row, col, life: Life::Spent };
    assert(released.held == state.held.push(fresh));
    assert(released.waiting =~= Seq::<Waiting>::empty());
    lemma_expire_all_held(state.held);
    assert(state.held.push(fresh).drop_last() =~= state.held);
    assert(expire(state.held.push(fresh)) == state.held.push(shown));
    let after = after_ticks(keymap, capacity, overflow, state, schedule);
    assert(after.held == state.held.push(shown));
    assert(after.waiting =~= Seq::<Waiting>::empty());
    // the report of that tick
    let codes = codes_of(after.held);
    assert(codes =~= codes_of(state.held).push(tap));
    assert(codes.drop_last() =~= codes_of(state.held));
    lemma_slotted_codes(state.held);
    if takes_slot(tap) {
        lemma_or_zero(modifiers_of(codes_of(state.held)));
    }
    // the tick after
    let longer = schedule.push(Seq::<KeyEvent>::empty());
    assert(longer.drop_last() =~= schedule);
    assert(state.held.push(shown).drop_last() =~= state.held);
    assert(expire(state.held.push(shown)) == state.held);
    let last = after_ticks(keymap, capacity, overflow, state, longer);
    assert(last.waiting =~= state.waiting);
    assert(last.held == state.held);
    assert(last.shifts == state.shifts);
}

} // verus!
