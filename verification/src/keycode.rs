//! Keys and what they mean while a text is being converted.

use vstd::prelude::*;
use crate::candidate::Navigation;

verus! {

/// The keys, by their X11 symbol numbers.
pub struct Keysym;

impl Keysym {
    pub const BACKSPACE: u32 = 0xff08;

    pub const TAB: u32 = 0xff09;

    pub const RETURN: u32 = 0xff0d;

    pub const ESCAPE: u32 = 0xff1b;

    pub const LEFT: u32 = 0xff51;

    pub const UP: u32 = 0xff52;

    pub const RIGHT: u32 = 0xff53;

    pub const DOWN: u32 = 0xff54;

    pub const PAGE_UP: u32 = 0xff55;

    pub const PAGE_DOWN: u32 = 0xff56;

    pub const DELETE: u32 = 0xffff;

    pub const SPACE: u32 = 0x20;

    pub const KEY_A: u32 = 0x61;

    pub const KEY_A_UPPER: u32 = 0x41;

    pub const KEY_B: u32 = 0x62;

    pub const KEY_B_UPPER: u32 = 0x42;

    pub const KEY_F: u32 = 0x66;

    pub const KEY_F_UPPER: u32 = 0x46;

    pub const KEY_H: u32 = 0x68;

    pub const KEY_H_UPPER: u32 = 0x48;

    pub const KEY_I: u32 = 0x69;

    pub const KEY_I_UPPER: u32 = 0x49;

    pub const KEY_J: u32 = 0x6a;

    pub const KEY_J_UPPER: u32 = 0x4a;

    pub const KEY_K: u32 = 0x6b;

    pub const KEY_K_UPPER: u32 = 0x4b;

    pub const KEY_L: u32 = 0x6c;

    pub const KEY_L_UPPER: u32 = 0x4c;

    pub const KEY_N: u32 = 0x6e;

    pub const KEY_N_UPPER: u32 = 0x4e;

    pub const KEY_O: u32 = 0x6f;

    pub const KEY_O_UPPER: u32 = 0x4f;

    pub const KEY_P: u32 = 0x70;

    pub const KEY_P_UPPER: u32 = 0x50;

    pub const KEY_R: u32 = 0x72;

    pub const KEY_R_UPPER: u32 = 0x52;

    pub const KEY_V: u32 = 0x76;

    pub const KEY_V_UPPER: u32 = 0x56;

    pub const KEY_W: u32 = 0x77;

    pub const KEY_W_UPPER: u32 = 0x57;

    pub const KEY_Z: u32 = 0x7a;

    pub const KEY_Z_UPPER: u32 = 0x5a;
}

/// The number on a digit key, from one to nine.
pub fn digit_value(keysym: u32) -> (r: Option<usize>)
    ensures
        r == digit_of(keysym),
{
    if 0x31 <= keysym && keysym <= 0x39 {
        Some((keysym - 0x30) as usize)
    } else {
        None
    }
}

/// The number on a digit key, from one to nine.
pub open spec fn digit_of(key: u32) -> Option<usize> {
    if 0x31 <= key <= 0x39 {
        Some((key - 0x30) as usize)
    } else {
        None
    }
}

/// The modifier keys held down.
#[derive(Debug, Clone, Copy, PartialEq, Eq, Structural)]
pub struct KeyModifiers {
    pub shift_key: bool,
    pub control_key: bool,
    pub alt_key: bool,
}

/// A key press.
#[derive(Debug, Clone, Copy, PartialEq, Eq, Structural)]
pub struct KeyEvent {
    pub keysym: u32,
    pub modifiers: KeyModifiers,
}

/// The character a key stands for: X11 numbers those of Latin-1 by their
/// code.
pub open spec fn char_of(key: u32) -> Option<char> {
    if 0x20 <= key <= 0x7e || 0xa0 <= key <= 0xff {
        Some(key as char)
    } else {
        None
    }
}

impl KeyEvent {
    /// A key pressed alone.
    pub fn press(keysym: u32) -> (r: Self)
        ensures
            r == (KeyEvent {
                keysym,
                modifiers: KeyModifiers { shift_key: false, control_key: false, alt_key: false },
            }),
    {
        KeyEvent {
            keysym,
            modifiers: KeyModifiers { shift_key: false, control_key: false, alt_key: false },
        }
    }

    /// The character the key stands for.
    pub fn to_char(&self) -> (r: Option<char>)
        ensures
            r == char_of(self.keysym),
    {
        let n: u32 = self.keysym;
        if 0x20 <= n && n <= 0x7e || 0xa0 <= n && n <= 0xff {
            Some(n as u8 as char)
        } else {
            None
        }
    }
}

/// What a key does to a conversion.
#[derive(Debug, Clone, Copy, PartialEq, Eq, Structural)]
pub enum ConversionCommand {
    Commit,
    Cancel,
    Navigate(Navigation),
    Shrink,
    Expand,
    PreviousSegment,
    NextSegment,
    Forget,
    CommitAndType(char),
    Pass,
}

/// The keys that have a meaning of their own, whatever the letters mean.
pub open spec fn named_command(key: KeyEvent) -> Option<ConversionCommand> {
    let k: u32 = key.keysym;
    let shift = key.modifiers.shift_key;
    let chord = key.modifiers.control_key && !key.modifiers.alt_key;
    if k == Keysym::RETURN {
        Some(ConversionCommand::Commit)
    } else if k == Keysym::ESCAPE {
        Some(ConversionCommand::Cancel)
    } else if k == Keysym::SPACE {
        Some(
            ConversionCommand::Navigate(
                if shift {
                    Navigation::Previous
                } else {
                    Navigation::Next
                },
            ),
        )
    } else if k == Keysym::DOWN {
        Some(
            ConversionCommand::Navigate(
                if shift {
                    Navigation::NextPage
                } else {
                    Navigation::Next
                },
            ),
        )
    } else if k == Keysym::UP {
        Some(
            ConversionCommand::Navigate(
                if shift {
                    Navigation::PreviousPage
                } else {
                    Navigation::Previous
                },
            ),
        )
    } else if k == Keysym::TAB {
        Some(ConversionCommand::Navigate(Navigation::Next))
    } else if k == Keysym::LEFT {
        Some(
            if shift {
                ConversionCommand::Shrink
            } else {
                ConversionCommand::PreviousSegment
            },
        )
    } else if k == Keysym::RIGHT {
        Some(
            if shift {
                ConversionCommand::Expand
            } else {
                ConversionCommand::NextSegment
            },
        )
    } else if k == Keysym::PAGE_DOWN {
        Some(ConversionCommand::Navigate(Navigation::NextPage))
    } else if k == Keysym::PAGE_UP {
        Some(ConversionCommand::Navigate(Navigation::PreviousPage))
    } else if (k == Keysym::DELETE || k == Keysym::BACKSPACE) && chord {
        Some(ConversionCommand::Forget)
    } else if k == Keysym::BACKSPACE {
        Some(ConversionCommand::Cancel)
    } else {
        None
    }
}

/// The letters that have a meaning together with Control.
pub open spec fn control_command(k: u32) -> Option<ConversionCommand> {
    if k == Keysym::KEY_N || k == Keysym::KEY_N_UPPER {
        Some(ConversionCommand::Navigate(Navigation::Next))
    } else if k == Keysym::KEY_P || k == Keysym::KEY_P_UPPER {
        Some(ConversionCommand::Navigate(Navigation::Previous))
    } else if k == Keysym::KEY_B || k == Keysym::KEY_B_UPPER {
        Some(ConversionCommand::NextSegment)
    } else if k == Keysym::KEY_F || k == Keysym::KEY_F_UPPER {
        Some(ConversionCommand::PreviousSegment)
    } else if k == Keysym::KEY_W || k == Keysym::KEY_W_UPPER || k == Keysym::KEY_O || k
        == Keysym::KEY_O_UPPER {
        Some(ConversionCommand::Expand)
    } else if k == Keysym::KEY_I || k == Keysym::KEY_I_UPPER {
        Some(ConversionCommand::Shrink)
    } else if k == Keysym::KEY_V || k == Keysym::KEY_V_UPPER {
        Some(ConversionCommand::Navigate(Navigation::NextPage))
    } else if k == Keysym::KEY_R || k == Keysym::KEY_R_UPPER {
        Some(ConversionCommand::Navigate(Navigation::PreviousPage))
    } else if k == Keysym::KEY_H || k == Keysym::KEY_H_UPPER {
        Some(ConversionCommand::Cancel)
    } else {
        None
    }
}

/// What a key does to a conversion: a key of its own meaning comes first,
/// then a Control chord, then a digit, then any other printable character.
pub open spec fn command_of(key: KeyEvent) -> ConversionCommand {
    let chord = key.modifiers.control_key && !key.modifiers.alt_key;
    match named_command(key) {
        Some(command) => command,
        None => if chord && control_command(key.keysym) is Some {
            control_command(key.keysym)->0
        } else {
            match digit_of(key.keysym) {
                Some(digit) => ConversionCommand::Navigate(Navigation::Digit(digit)),
                None => match char_of(key.keysym) {
                    Some(ch) => if key.modifiers.control_key || key.modifiers.alt_key {
                        ConversionCommand::Pass
                    } else {
                        ConversionCommand::CommitAndType(ch)
                    },
                    None => ConversionCommand::Pass,
                },
            }
        },
    }
}

fn either(k: u32, lower: u32, upper: u32) -> (r: bool)
    ensures
        r == (k == lower || k == upper),
{
    k == lower || k == upper
}

fn named(key: &KeyEvent) -> (r: Option<ConversionCommand>)
    ensures
        r == named_command(*key),
{
    let k: u32 = key.keysym;
    let shift = key.modifiers.shift_key;
    if k == Keysym::RETURN {
        Some(ConversionCommand::Commit)
    } else if k == Keysym::ESCAPE {
        Some(ConversionCommand::Cancel)
    } else if k == Keysym::SPACE {
        let how = if shift { Navigation::Previous } else { Navigation::Next };
        Some(ConversionCommand::Navigate(how))
    } else if k == Keysym::DOWN {
        let how = if shift { Navigation::NextPage } else { Navigation::Next };
        Some(ConversionCommand::Navigate(how))
    } else if k == Keysym::UP {
        let how = if shift { Navigation::PreviousPage } else { Navigation::Previous };
        Some(ConversionCommand::Navigate(how))
    } else if k == Keysym::TAB {
        Some(ConversionCommand::Navigate(Navigation::Next))
    } else if k == Keysym::LEFT {
        Some(if shift { ConversionCommand::Shrink } else { ConversionCommand::PreviousSegment })
    } else if k == Keysym::RIGHT {
        Some(if shift { ConversionCommand::Expand } else { ConversionCommand::NextSegment })
    } else if k == Keysym::PAGE_DOWN {
        Some(ConversionCommand::Navigate(Navigation::NextPage))
    } else if k == Keysym::PAGE_UP {
        Some(ConversionCommand::Navigate(Navigation::PreviousPage))
    } else if (k == Keysym::DELETE || k == Keysym::BACKSPACE) && key.modifiers.control_key
        && !key.modifiers.alt_key {
        Some(ConversionCommand::Forget)
    } else if k == Keysym::BACKSPACE {
        Some(ConversionCommand::Cancel)
    } else {
        None
    }
}

fn with_control(k: u32) -> (r: Option<ConversionCommand>)
    ensures
        r == control_command(k),
{
    if either(k, Keysym::KEY_N, Keysym::KEY_N_UPPER) {
        Some(ConversionCommand::Navigate(Navigation::Next))
    } else if either(k, Keysym::KEY_P, Keysym::KEY_P_UPPER) {
        Some(ConversionCommand::Navigate(Navigation::Previous))
    } else if either(k, Keysym::KEY_B, Keysym::KEY_B_UPPER) {
        Some(ConversionCommand::NextSegment)
    } else if either(k, Keysym::KEY_F, Keysym::KEY_F_UPPER) {
        Some(ConversionCommand::PreviousSegment)
    } else if either(k, Keysym::KEY_W, Keysym::KEY_W_UPPER) || either(
        k,
        Keysym::KEY_O,
        Keysym::KEY_O_UPPER,
    ) {
        Some(ConversionCommand::Expand)
    } else if either(k, Keysym::KEY_I, Keysym::KEY_I_UPPER) {
        Some(ConversionCommand::Shrink)
    } else if either(k, Keysym::KEY_V, Keysym::KEY_V_UPPER) {
        Some(ConversionCommand::Navigate(Navigation::NextPage))
    } else if either(k, Keysym::KEY_R, Keysym::KEY_R_UPPER) {
        Some(ConversionCommand::Navigate(Navigation::PreviousPage))
    } else if either(k, Keysym::KEY_H, Keysym::KEY_H_UPPER) {
        Some(ConversionCommand::Cancel)
    } else {
        None
    }
}

/// What a key does to a conversion.
pub fn conversion_command(key: &KeyEvent) -> (r: ConversionCommand)
    ensures
        r == command_of(*key),
{
    if let Some(command) = named(key) {
        return command;
    }
    if key.modifiers.control_key && !key.modifiers.alt_key {
        if let Some(command) = with_control(key.keysym) {
            return command;
        }
    }
    if let Some(digit) = digit_value(key.keysym) {
        return ConversionCommand::Navigate(Navigation::Digit(digit));
    }
    match key.to_char() {
        Some(ch) => if key.modifiers.control_key || key.modifiers.alt_key {
            ConversionCommand::Pass
        } else {
            ConversionCommand::CommitAndType(ch)
        },
        None => ConversionCommand::Pass,
    }
}

} // verus!
