//! Protomatrix board elements: sides, hit targets, pointer state, jumper queries and the net
//! color palette.

use vstd::prelude::*;

verus! {

/// Which side of the board (upper or lower proto area).
#[derive(Clone, Copy, Debug, PartialEq, Eq, Structural, Hash, PartialOrd, Ord)]
pub enum ProtoSide {
    Lower,
    Upper,
}

/// The opposite proto face.
pub open spec fn opposite(s: ProtoSide) -> ProtoSide {
    match s {
        ProtoSide::Lower => ProtoSide::Upper,
        ProtoSide::Upper => ProtoSide::Lower,
    }
}

impl ProtoSide {
    /// The opposite proto face.
    pub fn other(self) -> (r: ProtoSide)
        ensures
            r == opposite(self),
    {
        match self {
            ProtoSide::Lower => ProtoSide::Upper,
            ProtoSide::Upper => ProtoSide::Lower,
        }
    }
}

/// Target element under the cursor or clicked.
#[derive(Clone, Copy, Debug, PartialEq, Eq, Structural, Hash)]
pub enum ProtomatrixTarget {
    /// Proto pad at (col, row), 0-based.
    Pad { side: ProtoSide, col: i32, row: i32 },
    /// Matrix row index (0..matrix_size).
    MatrixRow { side: ProtoSide, row: i32 },
    /// Solder jumper at (col, row) in the matrix.
    SolderJumper { side: ProtoSide, col: i32, row: i32 },
}

/// Trait for querying which solder jumpers should be closed (autorouter output).
pub trait JumperStateProvider {
    /// The solder jumper at (side, col, row) is closed.
    spec fn jumper_closed(&self, side: ProtoSide, col: i32, row: i32) -> bool;

    fn is_closed(&self, side: ProtoSide, col: i32, row: i32) -> (r: bool)
        ensures
            r == self.jumper_closed(side, col, row),
    ;

    /// Net index for closed jumpers (0-based); used for per-net coloring. A net index comes
    /// back exactly for a closed jumper; by default every closed jumper is in net 0.
    fn net_index(&self, side: ProtoSide, col: i32, row: i32) -> (r: Option<usize>)
        ensures
            r is Some <==> self.jumper_closed(side, col, row),
        default_ensures
            r == (if self.jumper_closed(side, col, row) { Some(0usize) } else { None::<usize> }),
    {
        if self.is_closed(side, col, row) {
            Some(0)
        } else {
            None
        }
    }
}

/// Result of pointer input handling: what's under the cursor and what was clicked.
#[derive(Clone, Copy, Debug, Default)]
pub struct ProtomatrixPointerState {
    /// Current element under the cursor (if any).
    pub hovered: Option<ProtomatrixTarget>,
    /// Element that was clicked this frame (set when primary released over a target).
    pub clicked: Option<ProtomatrixTarget>,
}

impl ProtomatrixPointerState {
    /// Records this frame's hit-test result: the hovered element is `current`; the clicked
    /// element is `current` when the primary button was clicked, and cleared otherwise so that a
    /// click is not handled twice.
    pub fn update(&mut self, current: Option<ProtomatrixTarget>, primary_clicked: bool)
        ensures
            final(self).hovered == current,
            final(self).clicked == (if primary_clicked {
                current
            } else {
                None
            }),
    {
        self.hovered = current;
        if primary_clicked {
            self.clicked = current;
        } else {
            self.clicked = None;
        }
    }
}

/// An opaque RGB color.
#[derive(Clone, Copy, Debug, PartialEq, Eq, Structural)]
pub struct Rgb {
    pub r: u8,
    pub g: u8,
    pub b: u8,
}

/// The net color palette: green, blue, orange, purple, yellow, cyan, pink, lime, coral, indigo,
/// light yellow, light blue.
pub open spec fn palette(i: int) -> Rgb {
    if i == 0 {
        Rgb { r: 0x40, g: 0xc0, b: 0x60 }
    } else if i == 1 {
        Rgb { r: 0x60, g: 0x80, b: 0xff }
    } else if i == 2 {
        Rgb { r: 0xff, g: 0x80, b: 0x40 }
    } else if i == 3 {
        Rgb { r: 0xc0, g: 0x40, b: 0xff }
    } else if i == 4 {
        Rgb { r: 0xff, g: 0xc0, b: 0x40 }
    } else if i == 5 {
        Rgb { r: 0x40, g: 0xff, b: 0xff }
    } else if i == 6 {
        Rgb { r: 0xff, g: 0x40, b: 0x80 }
    } else if i == 7 {
        Rgb { r: 0x80, g: 0xff, b: 0x40 }
    } else if i == 8 {
        Rgb { r: 0xff, g: 0x60, b: 0x40 }
    } else if i == 9 {
        Rgb { r: 0x60, g: 0x40, b: 0xff }
    } else if i == 10 {
        Rgb { r: 0xff, g: 0xff, b: 0x60 }
    } else {
        Rgb { r: 0x80, g: 0xc0, b: 0xff }
    }
}

/// Number of colors in the net palette.
pub const NET_COLOR_COUNT: usize = 12;

/// Default color for a net index: the palette, cycled.
pub fn net_color(net_index: usize) -> (c: Rgb)
    ensures
        c == palette((net_index % NET_COLOR_COUNT) as int),
{
    let i = net_index % NET_COLOR_COUNT;
    if i == 0 {
        Rgb { r: 0x40, g: 0xc0, b: 0x60 }
    } else if i == 1 {
        Rgb { r: 0x60, g: 0x80, b: 0xff }
    } else if i == 2 {
        Rgb { r: 0xff, g: 0x80, b: 0x40 }
    } else if i == 3 {
        Rgb { r: 0xc0, g: 0x40, b: 0xff }
    } else if i == 4 {
        Rgb { r: 0xff, g: 0xc0, b: 0x40 }
    } else if i == 5 {
        Rgb { r: 0x40, g: 0xff, b: 0xff }
    } else if i == 6 {
        Rgb { r: 0xff, g: 0x40, b: 0x80 }
    } else if i == 7 {
        Rgb { r: 0x80, g: 0xff, b: 0x40 }
    } else if i == 8 {
        Rgb { r: 0xff, g: 0x60, b: 0x40 }
    } else if i == 9 {
        Rgb { r: 0x60, g: 0x40, b: 0xff }
    } else if i == 10 {
        Rgb { r: 0xff, g: 0xff, b: 0x60 }
    } else {
        Rgb { r: 0x80, g: 0xc0, b: 0xff }
    }
}

/// A channel brightened by 12, capped at 255.
pub open spec fn brighten(c: u8) -> u8 {
    if c + 12 > 255 {
        255
    } else {
        (c + 12) as u8
    }
}

/// A channel darkened by 18, floored at 0.
pub open spec fn darken(c: u8) -> u8 {
    if c < 18 {
        0
    } else {
        (c - 18) as u8
    }
}

/// Slight brightness boost for selection highlight (subtle, about 5% toward white).
pub fn net_color_highlight(base: Rgb) -> (c: Rgb)
    ensures
        c == (Rgb { r: brighten(base.r), g: brighten(base.g), b: brighten(base.b) }),
{
    let blend: u16 = 12;
    let r = if base.r as u16 + blend > 255 { 255 } else { (base.r as u16 + blend) as u8 };
    let g = if base.g as u16 + blend > 255 { 255 } else { (base.g as u16 + blend) as u8 };
    let b = if base.b as u16 + blend > 255 { 255 } else { (base.b as u16 + blend) as u8 };
    Rgb { r, g, b }
}

/// Slight darkening for non-selected nets when one is selected (subtle, about 7% toward black).
pub fn net_color_dimmed(base: Rgb) -> (c: Rgb)
    ensures
        c == (Rgb { r: darken(base.r), g: darken(base.g), b: darken(base.b) }),
{
    let dim: u8 = 18;
    let r = base.r.saturating_sub(dim);
    let g = base.g.saturating_sub(dim);
    let b = base.b.saturating_sub(dim);
    Rgb { r, g, b }
}

} // verus!
