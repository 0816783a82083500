//! The colours of a terminal: what a program asked for, as red, green and
//! blue.
use crate::term_grid;
use crate::term_grid::{set_color, TermColor};
use alacritty_terminal::term::color::Colors;
use vstd::prelude::*;

verus! {

/// Turns colours into red, green and blue.
pub struct Palette;

/// A colour as one number, its red part highest.
pub open spec fn packed(color: (u8, u8, u8)) -> u32 {
    (color.0 * 65536 + color.1 * 256 + color.2) as u32
}

/// The colour that a name stands for where a program has not set it.
pub open spec fn named_default(index: int) -> u32 {
    if index == 0 {
        0x000000
    } else if index == 1 {
        0xcc5555
    } else if index == 2 {
        0x55cc55
    } else if index == 3 {
        0xcdcd55
    } else if index == 4 {
        0x5555cc
    } else if index == 5 {
        0xcc55cc
    } else if index == 6 {
        0x55cccc
    } else if index == 7 {
        0xdddddd
    } else if index == 8 {
        0x777777
    } else if index == 9 {
        0xff7777
    } else if index == 10 {
        0x77ff77
    } else if index == 11 {
        0xffff77
    } else if index == 12 {
        0x7777ff
    } else if index == 13 {
        0xff77ff
    } else if index == 14 {
        0x77ffff
    } else if index == 15 {
        0xffffff
    } else if index == 256 {
        0xdddddd
    } else if index == 257 {
        0x000000
    } else if index == 258 {
        0xdddddd
    } else if index == 259 {
        0x555555
    } else if index == 260 {
        0x884444
    } else if index == 261 {
        0x448844
    } else if index == 262 {
        0x888844
    } else if index == 263 {
        0x444488
    } else if index == 264 {
        0x884488
    } else if index == 265 {
        0x448888
    } else if index == 266 {
        0x888888
    } else if index == 267 {
        0xffffff
    } else {
        0x888888
    }
}

/// A level of the cube of colours.
pub open spec fn cube_level(step: int) -> int {
    if step == 0 {
        0
    } else {
        step * 40 + 55
    }
}

/// The colour at a place in the table of 256 where a program has not set it:
/// the names, a cube of six levels each, and a ramp of greys.
pub open spec fn indexed_default(index: u8) -> u32 {
    if index < 16 {
        named_default(index as int)
    } else if index < 232 {
        let i = index - 16;
        packed(
            (
                cube_level(i / 36) as u8,
                cube_level((i / 6) % 6) as u8,
                cube_level(i % 6) as u8,
            ),
        )
    } else {
        let grey = ((index - 232) * 10 + 8) as u8;
        packed((grey, grey, grey))
    }
}

/// What a colour looks like, given those that a program has set.
pub open spec fn resolved(color: TermColor, set: Map<int, Option<(u8, u8, u8)>>) -> u32 {
    match color {
        TermColor::Spec(r, g, b) => packed((r, g, b)),
        TermColor::Named(index) => match set[index as int] {
            Some(own) => packed(own),
            None => named_default(index as int),
        },
        TermColor::Indexed(index) => match set[index as int] {
            Some(own) => packed(own),
            None => indexed_default(index),
        },
    }
}

fn pack(red: u8, green: u8, blue: u8) -> (color: u32)
    ensures
        color == packed((red, green, blue)),
{
    red as u32 * 65536 + green as u32 * 256 + blue as u32
}

fn level(step: u8) -> (value: u8)
    requires
        step < 6,
    ensures
        value == cube_level(step as int),
{
    if step == 0 {
        0
    } else {
        step * 40 + 55
    }
}

impl Palette {
    /// What a colour looks like: a colour that the program has set as it set
    /// it, and the usual one otherwise.
    pub fn resolve(color: TermColor, colors: &Colors) -> (rgb: u32)
        requires
            color.wf(),
        ensures
            rgb == resolved(color, term_grid::set_colors(*colors)),
    {
        match color {
            TermColor::Named(index) => Palette::named(index, colors),
            TermColor::Spec(r, g, b) => pack(r, g, b),
            TermColor::Indexed(index) => Palette::indexed(index, colors),
        }
    }

    fn named(index: u16, colors: &Colors) -> (rgb: u32)
        requires
            term_grid::is_name(index as int),
        ensures
            rgb == resolved(TermColor::Named(index), term_grid::set_colors(*colors)),
    {
        match set_color(colors, index as usize) {
            Some(own) => {
                return pack(own.0, own.1, own.2);
            },
            None => {},
        }
        match index {
            0 => 0x000000,
            1 => 0xcc5555,
            2 => 0x55cc55,
            3 => 0xcdcd55,
            4 => 0x5555cc,
            5 => 0xcc55cc,
            6 => 0x55cccc,
            7 => 0xdddddd,
            8 => 0x777777,
            9 => 0xff7777,
            10 => 0x77ff77,
            11 => 0xffff77,
            12 => 0x7777ff,
            13 => 0xff77ff,
            14 => 0x77ffff,
            15 => 0xffffff,
            256 => 0xdddddd,
            257 => 0x000000,
            258 => 0xdddddd,
            259 => 0x555555,
            260 => 0x884444,
            261 => 0x448844,
            262 => 0x888844,
            263 => 0x444488,
            264 => 0x884488,
            265 => 0x448888,
            266 => 0x888888,
            267 => 0xffffff,
            _ => 0x888888,
        }
    }

    fn indexed(index: u8, colors: &Colors) -> (rgb: u32)
        ensures
            rgb == resolved(TermColor::Indexed(index), term_grid::set_colors(*colors)),
    {
        match set_color(colors, index as usize) {
            Some(own) => {
                return pack(own.0, own.1, own.2);
            },
            None => {},
        }
        if index < 16 {
            return Palette::named(index as u16, colors);
        }
        if index < 232 {
            let i: u8 = index - 16;
            return pack(level((i / 36) % 6), level((i / 6) % 6), level(i % 6));
        }
        let grey: u8 = (index - 232) * 10 + 8;
        pack(grey, grey, grey)
    }
}

/// A colour of the table and the name at the same place look the same.
pub proof fn law_names_and_table_agree(index: u8, set: Map<int, Option<(u8, u8, u8)>>)
    requires
        index < 16,
    ensures
        resolved(TermColor::Indexed(index), set) == resolved(TermColor::Named(index as u16), set),
{
}

/// The red part of a colour.
pub open spec fn red_of(color: u32) -> int {
    color as int / 65536
}

/// The green part of a colour.
pub open spec fn green_of(color: u32) -> int {
    (color as int / 256) % 256
}

/// The blue part of a colour.
pub open spec fn blue_of(color: u32) -> int {
    color as int % 256
}

/// The parts of a packed colour are those that it was packed from.
pub proof fn law_packed_colors_keep_their_parts(red: u8, green: u8, blue: u8)
    ensures
        red_of(packed((red, green, blue))) == red,
        green_of(packed((red, green, blue))) == green,
        blue_of(packed((red, green, blue))) == blue,
{
}

/// A colour that a terminal was told is that colour, by its parts, by its name
/// and by its number in the table alike.
pub proof fn law_told_colors_are_used(
    red: u8,
    green: u8,
    blue: u8,
    name: u16,
    index: u8,
    set: Map<int, Option<(u8, u8, u8)>>,
)
    ensures
        resolved(TermColor::Spec(red, green, blue), set) == packed((red, green, blue)),
        set[name as int] == Some((red, green, blue)) ==> resolved(TermColor::Named(name), set)
            == packed((red, green, blue)),
        set[index as int] == Some((red, green, blue)) ==> resolved(TermColor::Indexed(index), set)
            == packed((red, green, blue)),
        set[name as int] is None ==> resolved(TermColor::Named(name), set) == named_default(
            name as int,
        ),
        set[index as int] is None ==> resolved(TermColor::Indexed(index), set) == indexed_default(
            index,
        ),
{
}

/// The colour cube of the table: its three parts count up in six levels, which
/// are 0 and then 95 to 255 in steps of 40; behind it 24 greys count up from 8
/// in steps of 10.
pub proof fn law_table_is_a_cube_and_greys(red: int, green: int, blue: int, grey: int)
    requires
        0 <= red < 6,
        0 <= green < 6,
        0 <= blue < 6,
        0 <= grey < 24,
    ensures
        ({
            let color = indexed_default((16 + 36 * red + 6 * green + blue) as u8);
            let level = |step: int|
                if step == 0 {
                    0
                } else {
                    95 + 40 * (step - 1)
                };
            &&& red_of(color) == level(red)
            &&& green_of(color) == level(green)
            &&& blue_of(color) == level(blue)
        }),
        ({
            let color = indexed_default((232 + grey) as u8);
            &&& red_of(color) == 8 + 10 * grey
            &&& green_of(color) == 8 + 10 * grey
            &&& blue_of(color) == 8 + 10 * grey
        }),
{
    let i = 36 * red + 6 * green + blue;
    assert(i / 36 == red && (i / 6) % 6 == green && i % 6 == blue) by (nonlinear_arith)
        requires
            i == 36 * red + 6 * green + blue,
            0 <= red < 6,
            0 <= green < 6,
            0 <= blue < 6,
    ;
    law_packed_colors_keep_their_parts(
        cube_level(red) as u8,
        cube_level(green) as u8,
        cube_level(blue) as u8,
    );
    let shade = (8 + 10 * grey) as u8;
    law_packed_colors_keep_their_parts(shade, shade, shade);
}

/// The six colours that follow black are numbered by their parts, the lowest
/// bit for red, the next for green and the highest for blue, and a part that is
/// not in the number is darker; so are their bright and their dim forms.
pub proof fn law_named_colors_go_by_their_parts(n: int)
    requires
        1 <= n <= 6,
    ensures
        ({
            let plain = named_default(n);
            let bright = named_default(8 + n);
            let dim = named_default(259 + n);
            &&& n % 2 == 1 <==> red_of(plain) > 0x55
            &&& (n / 2) % 2 == 1 <==> green_of(plain) > 0x55
            &&& n / 4 == 1 <==> blue_of(plain) > 0x55
            &&& red_of(plain) >= 0xcc || red_of(plain) == 0x55
            &&& green_of(plain) >= 0xcc || green_of(plain) == 0x55
            &&& blue_of(plain) >= 0xcc || blue_of(plain) == 0x55
            &&& red_of(bright) == if n % 2 == 1 {
                0xffint
            } else {
                0x77
            }
            &&& green_of(bright) == if (n / 2) % 2 == 1 {
                0xffint
            } else {
                0x77
            }
            &&& blue_of(bright) == if n / 4 == 1 {
                0xffint
            } else {
                0x77
            }
            &&& red_of(dim) == if n % 2 == 1 {
                0x88int
            } else {
                0x44
            }
            &&& green_of(dim) == if (n / 2) % 2 == 1 {
                0x88int
            } else {
                0x44
            }
            &&& blue_of(dim) == if n / 4 == 1 {
                0x88int
            } else {
                0x44
            }
        }),
{
}

} // verus!
