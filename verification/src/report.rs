//! The HID keyboard report: the modifier byte and the six key slots that
//! describe a held set on the wire.

use vstd::prelude::*;

verus! {

/// Length of a report in bytes: the modifier byte and the key slots.
pub const REPORT_LEN: usize = 7;

/// Number of key slots in a report.
pub const SLOTS: usize = 6;

/// The key code of the first modifier, left control.
pub const FIRST_MODIFIER: u8 = 0xE0;

/// The key code of the last modifier, right GUI.
pub const LAST_MODIFIER: u8 = 0xE7;

/// Whether a key code is one of the eight modifiers.
pub open spec fn is_modifier(code: u8) -> bool {
    FIRST_MODIFIER <= code <= LAST_MODIFIER
}

/// Whether a key code takes a key slot: it is no modifier and not the code 0,
/// which marks an empty slot.
pub open spec fn takes_slot(code: u8) -> bool {
    code != 0 && !is_modifier(code)
}

/// Whether a key code takes a key slot.
pub fn takes_a_slot(code: u8) -> (res: bool)
    ensures
        res == takes_slot(code),
{
    code != 0 && !(FIRST_MODIFIER <= code && code <= LAST_MODIFIER)
}

/// The bit of a modifier in the modifier byte, and 0 for any other code.
pub open spec fn modifier_bit(code: u8) -> u8 {
    if is_modifier(code) {
        1u8 << ((code - FIRST_MODIFIER) as u8)
    } else {
        0
    }
}

/// The modifier byte of a held set: the bits of its modifiers.
pub open spec fn modifiers_of(codes: Seq<u8>) -> u8
    decreases codes.len(),
{
    if codes.len() == 0 {
        0
    } else {
        modifiers_of(codes.drop_last()) | modifier_bit(codes.last())
    }
}

/// The codes of a held set that take a key slot, in their order.
pub open spec fn slotted(codes: Seq<u8>) -> Seq<u8>
    decreases codes.len(),
{
    if codes.len() == 0 {
        codes
    } else if takes_slot(codes.last()) {
        slotted(codes.drop_last()).push(codes.last())
    } else {
        slotted(codes.drop_last())
    }
}

/// The bytes of the report of a held set: the modifier byte, then the first
/// six codes that take a slot, then zeros. Codes beyond the sixth are left
/// out.
pub open spec fn report_bytes(codes: Seq<u8>) -> Seq<u8> {
    Seq::new(
        REPORT_LEN as nat,
        |i: int|
            if i == 0 {
                modifiers_of(codes)
            } else if i - 1 < slotted(codes).len() {
                slotted(codes)[i - 1]
            } else {
                0u8
            },
    )
}

/// A byte that takes in no bit stays as it is.
pub proof fn lemma_or_zero(x: u8)
    ensures
        x | 0u8 == x,
{
    assert(x | 0u8 == x) by (bit_vector);
}

/// The modifier byte has one bit per modifier. Bit `k` of the modifier byte
/// is set exactly when the held set holds the modifier `k`, counted from left
/// control.
pub proof fn lemma_modifier_bits(codes: Seq<u8>, k: u8)
    requires
        k < 8,
    ensures
        (modifiers_of(codes) & (1u8 << k) != 0) <==> codes.contains((FIRST_MODIFIER + k) as u8),
    decreases codes.len(),
{
    let wanted = (FIRST_MODIFIER + k) as u8;
    if codes.len() == 0 {
        assert(0u8 & (1u8 << k) == 0) by (bit_vector);
    } else {
        let rest = codes.drop_last();
        let last = codes.last();
        let mask = modifiers_of(rest);
        let bit = modifier_bit(last);
        lemma_modifier_bits(rest, k);
        assert(((mask | bit) & (1u8 << k) != 0) <==> (mask & (1u8 << k) != 0) || (bit & (1u8 << k)
            != 0)) by (bit_vector);
        if is_modifier(last) {
            let j = (last - FIRST_MODIFIER) as u8;
            assert(((1u8 << j) & (1u8 << k) != 0) <==> j == k) by (bit_vector)
                requires
                    j < 8,
                    k < 8,
            ;
        } else {
            assert(0u8 & (1u8 << k) == 0) by (bit_vector);
        }
        assert(bit & (1u8 << k) != 0 <==> last == wanted);
        if codes.contains(wanted) {
            let i = choose|i: int| 0 <= i < codes.len() && codes[i] == wanted;
            if i < rest.len() {
                assert(rest[i] == wanted);
            }
        }
        if rest.contains(wanted) {
            let i = choose|i: int| 0 <= i < rest.len() && rest[i] == wanted;
            assert(codes[i] == wanted);
        }
        if last == wanted {
            assert(codes[codes.len() - 1] == wanted);
        }
    }
}

/// The key slots hold the held keys in their order: slot `i` holds the
/// key of index `i` among the held codes that take a slot, and is empty
/// where there are not that many.
pub proof fn lemma_slots(codes: Seq<u8>, i: int)
    requires
        0 <= i < SLOTS,
    ensures
        report_bytes(codes).len() == REPORT_LEN,
        report_bytes(codes)[0] == modifiers_of(codes),
        report_bytes(codes)[i + 1] == if i < slotted(codes).len() {
            slotted(codes)[i]
        } else {
            0u8
        },
        i < slotted(codes).len() ==> report_bytes(codes)[i + 1] != 0,
{
    lemma_slotted_take_slots(codes);
}

/// Every code among the slotted ones takes a slot.
proof fn lemma_slotted_take_slots(codes: Seq<u8>)
    ensures
        forall|i: int| 0 <= i < slotted(codes).len() ==> takes_slot(#[trigger] slotted(codes)[i]),
    decreases codes.len(),
{
    if codes.len() > 0 {
        let rest = slotted(codes.drop_last());
        lemma_slotted_take_slots(codes.drop_last());
        assert forall|i: int| 0 <= i < slotted(codes).len() implies takes_slot(
            #[trigger] slotted(codes)[i],
        ) by {
            if i < rest.len() {
                assert(slotted(codes)[i] == rest[i]);
            }
        }
    }
}

/// The report of a held set, oldest key first.
pub fn report(codes: &Vec<u8>) -> (bytes: [u8; 7])
    ensures
        bytes@ == report_bytes(codes@),
{
    let mut bytes: [u8; 7] = [0u8; 7];
    let mut used: usize = 0;
    let mut i: usize = 0;
    while i < codes.len()
        invariant
            i <= codes@.len(),
            used <= SLOTS,
            bytes@.len() == REPORT_LEN,
            bytes@[0] == modifiers_of(codes@.take(i as int)),
            used == slotted(codes@.take(i as int)).len() || (used == SLOTS && slotted(
                codes@.take(i as int),
            ).len() > SLOTS),
            forall|j: int| 0 <= j < used ==> bytes@[j + 1] == slotted(codes@.take(i as int))[j],
            forall|j: int| used < j < REPORT_LEN ==> bytes@[j] == 0,
        decreases codes@.len() - i,
    {
        proof {
            assert(codes@.take(i + 1).drop_last() =~= codes@.take(i as int));
        }
        let code = codes[i];
        let mods: u8 = bytes[0];
        if FIRST_MODIFIER <= code && code <= LAST_MODIFIER {
            let bit: u8 = 1u8 << (code - FIRST_MODIFIER);
            bytes[0] = mods | bit;
        } else {
            proof {
                lemma_or_zero(mods);
            }
            if code != 0 && used < SLOTS {
                bytes[used + 1] = code;
                used += 1;
            }
        }
        i += 1;
    }
    assert(codes@.take(i as int) =~= codes@);
    assert(bytes@ =~= report_bytes(codes@));
    bytes
}

} // verus!
