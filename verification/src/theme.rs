//! The names of the things the app draws, and its colours as bytes.

use vstd::prelude::*;

verus! {

/// The tool icons: strokes on a 16-unit grid, so they scale with the ui and
/// take the colour of the row they sit in.
#[derive(Clone, Copy, PartialEq, Eq, Debug, Structural)]
pub enum Icon {
    Pencil,
    Eraser,
    Bucket,
    Picker,
    Raise,
    Lower,
    Smooth,
}

/// The red, green and blue of a colour written as one number.
pub fn rgb(hex: u32) -> (c: [u8; 3])
    ensures
        c@ == seq![
            (hex as int / 0x1_0000 % 0x100) as u8,
            (hex as int / 0x100 % 0x100) as u8,
            (hex as int % 0x100) as u8,
        ],
        hex < 0x100_0000 ==> hex == 0x1_0000 * c@[0] + 0x100 * c@[1] + c@[2],
{
    let red: u8 = (hex / 0x1_0000 % 0x100) as u8;
    let green: u8 = (hex / 0x100 % 0x100) as u8;
    let blue: u8 = (hex % 0x100) as u8;
    let c: [u8; 3] = [red, green, blue];
    assert(c@ =~= seq![red, green, blue]);
    c
}

} // verus!
