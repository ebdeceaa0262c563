//! What the console sends to the UART for one character.

use vstd::prelude::*;

verus! {

pub const BACKSPACE: char = '\x08';

/// The characters to transmit to show `c`: a backspace moves back, blanks
/// the cell and moves back again.
pub fn put_c(c: char) -> (r: Vec<char>)
    ensures
        c == BACKSPACE ==> r@ == seq![BACKSPACE, ' ', BACKSPACE],
        c != BACKSPACE ==> r@ == seq![c],
{
    let mut out: Vec<char> = Vec::new();
    if c == BACKSPACE {
        out.push(BACKSPACE);
        out.push(' ');
        out.push(BACKSPACE);
    } else {
        out.push(c);
    }
    out
}

} // verus!
