use vstd::prelude::*;

verus! {

/// An opaque colour by its red, green and blue components.
#[derive(PartialEq, Eq, Structural, Clone, Copy, Debug)]
pub struct Rgb {
    pub r: u8,
    pub g: u8,
    pub b: u8,
}

pub open spec fn rgb(r: u8, g: u8, b: u8) -> Rgb {
    Rgb { r, g, b }
}

/// The colours of the particles, by `i` modulo 6.
pub open spec fn spec_palette_color(i: u32) -> Rgb {
    let k = i % 6;
    if k == 0 {
        rgb(255, 99, 132)
    } else if k == 1 {
        rgb(54, 162, 235)
    } else if k == 2 {
        rgb(255, 206, 86)
    } else if k == 3 {
        rgb(75, 192, 192)
    } else if k == 4 {
        rgb(153, 102, 255)
    } else {
        rgb(255, 159, 64)
    }
}

/// A particle colour, cycling through six colours.
pub fn palette_color(i: u32) -> (c: Rgb)
    ensures
        c == spec_palette_color(i),
{
    match i % 6 {
        0 => Rgb { r: 255, g: 99, b: 132 },
        1 => Rgb { r: 54, g: 162, b: 235 },
        2 => Rgb { r: 255, g: 206, b: 86 },
        3 => Rgb { r: 75, g: 192, b: 192 },
        4 => Rgb { r: 153, g: 102, b: 255 },
        _ => Rgb { r: 255, g: 159, b: 64 },
    }
}

/// The accent colours of the categories, by position modulo 8: coral pink,
/// turquoise, amber, indigo, violet, green, coral, mint.
pub open spec fn category_palette() -> Seq<Rgb> {
    seq![
        rgb(255, 107, 129),
        rgb(78, 205, 196),
        rgb(255, 190, 92),
        rgb(108, 140, 255),
        rgb(167, 139, 250),
        rgb(74, 222, 128),
        rgb(255, 140, 97),
        rgb(94, 234, 212),
    ]
}

/// The accent colour of the category at position `index`.
pub fn category_color(index: usize) -> (c: Rgb)
    ensures
        c == category_palette()[(index % 8) as int],
{
    let palette: [Rgb; 8] = [
        Rgb { r: 255, g: 107, b: 129 },
        Rgb { r: 78, g: 205, b: 196 },
        Rgb { r: 255, g: 190, b: 92 },
        Rgb { r: 108, g: 140, b: 255 },
        Rgb { r: 167, g: 139, b: 250 },
        Rgb { r: 74, g: 222, b: 128 },
        Rgb { r: 255, g: 140, b: 97 },
        Rgb { r: 94, g: 234, b: 212 },
    ];
    assert(palette@ =~= category_palette());
    palette[index % 8]
}

/// The display preferences.
pub struct Prefs {
    pub dark_mode: bool,
}

impl Default for Prefs {
    /// Dark mode by default.
    fn default() -> (p: Self)
        ensures
            p.dark_mode,
    {
        Prefs { dark_mode: true }
    }
}

} // verus!
