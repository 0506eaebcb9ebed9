//! The one-character display form of a cell value.

use vstd::prelude::*;

verus! {

/// The character that displays value `num`: values count from zero, shown as
/// `1`-`9` and then as upper-case letters, with `?` for anything the display
/// alphabet cannot hold.
pub open spec fn num_char_of(num: usize) -> char {
    if num == 0 {
        '1'
    } else if num == 1 {
        '2'
    } else if num == 2 {
        '3'
    } else if num == 3 {
        '4'
    } else if num == 4 {
        '5'
    } else if num == 5 {
        '6'
    } else if num == 6 {
        '7'
    } else if num == 7 {
        '8'
    } else if num == 8 {
        '9'
    } else if num == 9 {
        'A'
    } else if num == 10 {
        'B'
    } else if num == 11 {
        'C'
    } else if num == 12 {
        'D'
    } else if num == 13 {
        'E'
    } else if num == 14 {
        'F'
    } else if num == 15 {
        'G'
    } else if num == 16 {
        'H'
    } else if num == 17 {
        'I'
    } else if num == 18 {
        'J'
    } else if num == 19 {
        'K'
    } else if num == 20 {
        'L'
    } else if num == 21 {
        'M'
    } else if num == 22 {
        'N'
    } else if num == 23 {
        'O'
    } else if num == 24 {
        'P'
    } else if num == 25 {
        'Q'
    } else if num == 26 {
        'R'
    } else if num == 27 {
        'S'
    } else if num == 28 {
        'T'
    } else if num == 29 {
        'U'
    } else if num == 30 {
        'V'
    } else {
        '?'
    }
}

/// Maps a cell value to its display character.
pub fn num_char(num: usize) -> (r: char)
    ensures
        r == num_char_of(num),
{
    match num {
        0 => '1',
        1 => '2',
        2 => '3',
        3 => '4',
        4 => '5',
        5 => '6',
        6 => '7',
        7 => '8',
        8 => '9',
        9 => 'A',
        10 => 'B',
        11 => 'C',
        12 => 'D',
        13 => 'E',
        14 => 'F',
        15 => 'G',
        16 => 'H',
        17 => 'I',
        18 => 'J',
        19 => 'K',
        20 => 'L',
        21 => 'M',
        22 => 'N',
        23 => 'O',
        24 => 'P',
        25 => 'Q',
        26 => 'R',
        27 => 'S',
        28 => 'T',
        29 => 'U',
        30 => 'V',
        _ => '?',
    }
}

} // verus!
