//! The seven-byte command frames and the register map of the power-level settings.

use vstd::prelude::*;
use crate::decimal::{fixed_digits, fixed_text};

verus! {

/// `V`: read the firmware version.
pub const VERSION_CMD: u8 = 86;

/// `P`: read the current pressure.
pub const PRESSURE_CMD: u8 = 80;

/// `A`: read the current pulse duration.
pub const PULSE_CMD: u8 = 65;

/// `Q`: end the session.
pub const QUIT_CMD: u8 = 81;

/// A one-letter command padded with six spaces.
pub open spec fn letter_frame(letter: u8) -> Seq<u8> {
    seq![letter, 32u8, 32u8, 32u8, 32u8, 32u8, 32u8]
}

/// `R`, the two-digit address, then `0000`.
pub open spec fn read_frame(address: nat) -> Seq<u8> {
    seq![82u8] + fixed_digits(address, 2) + seq![48u8, 48u8, 48u8, 48u8]
}

/// `W`, the two-digit address, then the four-digit value.
pub open spec fn write_frame(address: nat, data: nat) -> Seq<u8> {
    seq![87u8] + fixed_digits(address, 2) + fixed_digits(data, 4)
}

/// Builds the frame of a one-letter command.
pub fn letter_cmd(letter: u8) -> (r: Vec<u8>)
    ensures
        r@ == letter_frame(letter),
{
    let mut v = Vec::new();
    v.push(letter);
    let mut i: usize = 0;
    while i < 6
        invariant
            i <= 6,
            v@ == letter_frame(letter).subrange(0, i + 1),
        decreases 6 - i,
    {
        v.push(32);
        i = i + 1;
        assert(v@ =~= letter_frame(letter).subrange(0, i + 1));
    }
    assert(v@ =~= letter_frame(letter));
    v
}

/// Builds the frame that reads the register at `address`.
pub fn read_cmd(address: u8) -> (r: Vec<u8>)
    requires
        address < 100,
    ensures
        r@ == read_frame(address as nat),
        r@.len() == 7,
{
    let mut v = Vec::new();
    v.push(82);
    let mut a = fixed_text(address as u32, 2);
    v.append(&mut a);
    let mut z = fixed_text(0, 4);
    v.append(&mut z);
    reveal_with_fuel(fixed_digits, 5);
    assert(v@ =~= read_frame(address as nat));
    v
}

/// Builds the frame that writes `data` to the register at `address`.
pub fn write_cmd(address: u8, data: u16) -> (r: Vec<u8>)
    requires
        address < 100,
        data < 10000,
    ensures
        r@ == write_frame(address as nat, data as nat),
        r@.len() == 7,
{
    let mut v = Vec::new();
    v.push(87);
    let mut a = fixed_text(address as u32, 2);
    v.append(&mut a);
    let mut d = fixed_text(data as u32, 4);
    v.append(&mut d);
    reveal_with_fuel(fixed_digits, 5);
    assert(v@ =~= write_frame(address as nat, data as nat));
    v
}

/// Registers per power level.
pub const BLOCK_LEN: usize = 9;

/// The first register of a power level's block.
pub open spec fn block_base(level: nat) -> nat {
    20 * level
}

/// The register that holds field `k` of a power level's settings.
pub open spec fn register_of(level: nat, k: nat) -> nat {
    block_base(level) + 2 * k
}

/// Whether every register of the level's block has a two-digit address.
pub open spec fn level_in_map(level: nat) -> bool {
    register_of(level, 8) < 100
}

/// The register holding field `k` of `level`'s settings.
pub fn register(level: u16, k: usize) -> (r: u8)
    requires
        level_in_map(level as nat),
        k < BLOCK_LEN,
    ensures
        r as nat == register_of(level as nat, k as nat),
        r < 100,
{
    (20 * level + 2 * k as u16) as u8
}

/// The nine registers of each power level 1, 2 and 3 are `20 * level` plus 0, 2, ..., 16:
/// nine distinct addresses, each below 100.
pub proof fn lemma_register_block(level: nat)
    requires
        1 <= level <= 3,
    ensures
        level_in_map(level),
        forall|j: nat, k: nat|
            j < 9 && k < 9 && j != k ==> register_of(level, j) != register_of(level, k),
        Set::new(|a: nat| exists|k: nat| k < 9 && a == #[trigger] register_of(level, k)) =~= set![
            20 * level,
            20 * level + 2,
            20 * level + 4,
            20 * level + 6,
            20 * level + 8,
            20 * level + 10,
            20 * level + 12,
            20 * level + 14,
            20 * level + 16,
        ],
{
    let s = Set::new(|a: nat| exists|k: nat| k < 9 && a == #[trigger] register_of(level, k));
    assert forall|a: nat| s.contains(a) <==> #[trigger] set![
        20 * level,
        20 * level + 2,
        20 * level + 4,
        20 * level + 6,
        20 * level + 8,
        20 * level + 10,
        20 * level + 12,
        20 * level + 14,
        20 * level + 16,
    ].contains(a) by {
        if a == 20 * level + 16 {
            assert(a == register_of(level, 8));
        }
        if a == 20 * level + 14 {
            assert(a == register_of(level, 7));
        }
        if a == 20 * level + 12 {
            assert(a == register_of(level, 6));
        }
        if a == 20 * level + 10 {
            assert(a == register_of(level, 5));
        }
        if a == 20 * level + 8 {
            assert(a == register_of(level, 4));
        }
        if a == 20 * level + 6 {
            assert(a == register_of(level, 3));
        }
        if a == 20 * level + 4 {
            assert(a == register_of(level, 2));
        }
        if a == 20 * level + 2 {
            assert(a == register_of(level, 1));
        }
        if a == 20 * level {
            assert(a == register_of(level, 0));
        }
    }
}

} // verus!
