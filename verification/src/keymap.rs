//! Key values and modifier masks as the input bus delivers them.
use vstd::prelude::*;

verus! {

pub const IBUS_RELEASE_MASK: u32 = 0x4000_0000;

pub const IBUS_SHIFT_MASK: u32 = 0x1;

pub const IBUS_CONTROL_MASK: u32 = 0x4;

pub const IBUS_MOD1_MASK: u32 = 0x8;

/// The modifiers that a toggle key can ask for: Shift, Control and Alt.
pub const IBUS_BINDING_MASK: u32 = 0xd;

pub const IBUS_KEY_SPACE: u32 = 0x0020;

pub const IBUS_KEY_RETURN: u32 = 0xFF0D;

pub const IBUS_KEY_ESCAPE: u32 = 0xFF1B;

pub const IBUS_KEY_TAB: u32 = 0xFF09;

pub const IBUS_KEY_BACKSPACE: u32 = 0xFF08;

pub const IBUS_KEY_GRAVE: u32 = 0x0060;

pub const IBUS_KEY_ZENKAKU_HANKAKU: u32 = 0xFF2A;

pub const IBUS_KEY_HENKAN_MODE: u32 = 0xFF23;

pub const IBUS_KEY_MUHENKAN: u32 = 0xFF22;

pub const IBUS_KEY_EXCLAM: u32 = 0x0021;

/// Is Control or Alt held?
pub open spec fn commanding(state: u32) -> bool {
    state & IBUS_CONTROL_MASK != 0 || state & IBUS_MOD1_MASK != 0
}

/// Is the key let go?
pub open spec fn released(state: u32) -> bool {
    state & IBUS_RELEASE_MASK != 0
}

/// Is Control or Alt held?
pub fn has_modifier(state: u32) -> (yes: bool)
    ensures
        yes == commanding(state),
{
    state & IBUS_CONTROL_MASK != 0 || state & IBUS_MOD1_MASK != 0
}

/// Is the key let go?
pub fn is_release(state: u32) -> (yes: bool)
    ensures
        yes == released(state),
{
    state & IBUS_RELEASE_MASK != 0
}

/// The key of the small letter for a capital letter. Other keys stay as they
/// are: what they give with Shift depends on the keyboard.
pub open spec fn unshifted(keyval: u32) -> u32 {
    if 0x41 <= keyval <= 0x5a {
        (keyval + 0x20) as u32
    } else {
        keyval
    }
}

/// The key of the small letter for a capital letter. A letter may go down with
/// Shift and come up without it.
pub fn unshift_letter(keyval: u32) -> (out: u32)
    ensures
        out == unshifted(keyval),
{
    if 0x41 <= keyval && keyval <= 0x5a {
        keyval + 0x20
    } else {
        keyval
    }
}

/// Both cases of a letter are the same key, and doing it again changes nothing.
pub proof fn law_unshift_folds_case(keyval: u32)
    ensures
        unshifted(unshifted(keyval)) == unshifted(keyval),
        0x61 <= keyval <= 0x7a ==> unshifted((keyval - 0x20) as u32) == unshifted(keyval),
{
}

/// Control and Alt make a key a command, and a bit of its own tells that a key came
/// up.
pub proof fn law_state_bits(state: u32)
    ensures
        commanding(state) <==> (state & 0x4u32 != 0 || state & 0x8u32 != 0),
        released(state) <==> state & 0x4000_0000u32 != 0,
{
}

/// Capital letters become small ones, and every other key stays as it is.
pub proof fn law_only_capitals_change(keyval: u32)
    ensures
        0x41 <= keyval <= 0x5a ==> unshifted(keyval) == keyval + 0x20,
        !(0x41 <= keyval <= 0x5a) ==> unshifted(keyval) == keyval,
{
}

} // verus!
