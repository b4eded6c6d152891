//! A model of the register device that the frames address.

use vstd::prelude::*;
use crate::decimal::{decimal_digits, fixed_digits, u16_of_text, lemma_decimal_round_trip, lemma_fixed_digits, pow10, is_digit};
use crate::frame::{read_frame, write_frame};
use crate::gcu::{error_line, ok_line, u16_outcome, GcuError};

verus! {

/// The address field of a frame.
pub open spec fn frame_address(f: Seq<u8>) -> Option<u16> {
    u16_of_text(f.subrange(1, 3))
}

/// The value field of a frame.
pub open spec fn frame_value(f: Seq<u8>) -> Option<u16> {
    u16_of_text(f.subrange(3, 7))
}

/// The registers after the device takes frame `f`: a `W` frame stores its value at its
/// address; any other frame leaves them as they are.
pub open spec fn store(regs: Map<u16, u16>, f: Seq<u8>) -> Map<u16, u16> {
    if f.len() == 7 && f[0] == 87 && frame_address(f) is Some && frame_value(f) is Some {
        regs.insert(frame_address(f)->Some_0, frame_value(f)->Some_0)
    } else {
        regs
    }
}

/// The device's reply to frame `f`: for an `R` frame of a stored register, the value in
/// decimal and `OK`; for anything else, `Error`.
pub open spec fn answer(regs: Map<u16, u16>, f: Seq<u8>) -> Seq<Seq<u8>> {
    if f.len() == 7 && f[0] == 82 && frame_address(f) is Some && regs.contains_key(
        frame_address(f)->Some_0,
    ) {
        seq![decimal_digits(regs[frame_address(f)->Some_0] as nat), ok_line()]
    } else {
        seq![error_line()]
    }
}

/// On the register device, a word written to an address is the word that a later read of
/// that address returns, for every address below 100 and value below 10000.
pub proof fn lemma_write_then_read(regs: Map<u16, u16>, address: u8, data: u16)
    requires
        address < 100,
        data < 10000,
    ensures
        u16_outcome(answer(store(regs, write_frame(address as nat, data as nat)), read_frame(address as nat)))
            == Ok::<u16, GcuError>(data),
{
    let w = write_frame(address as nat, data as nat);
    let rf = read_frame(address as nat);
    assert(pow10(2) == 100 && pow10(4) == 10000) by {
        reveal_with_fuel(pow10, 5);
    }
    lemma_fixed_digits(address as nat, 2);
    lemma_fixed_digits(data as nat, 4);
    let a2 = fixed_digits(address as nat, 2);
    let d4 = fixed_digits(data as nat, 4);
    assert(w.subrange(1, 3) =~= a2);
    assert(w.subrange(3, 7) =~= d4);
    assert(rf.subrange(1, 3) =~= a2);
    assert(is_digit(a2[0]));
    assert(is_digit(d4[0]));
    assert(u16_of_text(a2) == Some(address as u16));
    assert(u16_of_text(d4) == Some(data));
    let regs2 = store(regs, w);
    assert(regs2 == regs.insert(address as u16, data));
    lemma_decimal_round_trip(data);
    let lines = answer(regs2, rf);
    assert(lines == seq![decimal_digits(data as nat), ok_line()]);
    assert(lines.last() == ok_line());
}

} // verus!
