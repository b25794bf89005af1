//! The text of a grid position: a field of two characters that is blank
//! where there is no cell, a placeholder where the cell is empty, and the
//! number with a leading zero where it holds one.

use vstd::prelude::*;
use crate::puzzle::Puzzle;

verus! {

/// What stands at a position of the rectangle.
#[derive(Clone, Copy, Debug, PartialEq, Eq, Structural)]
pub enum Tile {
    /// No cell.
    Absent,
    /// A cell without a number.
    Empty,
    /// A cell with its number.
    Number(u8),
}

/// The two characters for a tile, as ASCII codes. Numbers from 100 on do
/// not fit the field and have no text.
pub open spec fn tile_text(t: Tile) -> Option<(u8, u8)> {
    match t {
        Tile::Absent => Some((0x20u8, 0x20u8)),
        Tile::Empty => Some((0x5fu8, 0x5fu8)),
        Tile::Number(v) => if v < 100 {
            Some(((0x30 + v / 10) as u8, (0x30 + v % 10) as u8))
        } else {
            None
        },
    }
}

/// `c` is the code of a decimal digit.
pub open spec fn digit(c: u8) -> bool {
    0x30 <= c <= 0x39
}

/// The tile that two characters stand for, if they are the text of one.
pub open spec fn text_tile(a: u8, b: u8) -> Option<Tile> {
    if a == 0x20 && b == 0x20 {
        Some(Tile::Absent)
    } else if a == 0x5f && b == 0x5f {
        Some(Tile::Empty)
    } else if digit(a) && digit(b) {
        Some(Tile::Number(((a - 0x30) * 10 + (b - 0x30)) as u8))
    } else {
        None
    }
}

/// Reading gives back what was written: the text of a tile stands for that
/// tile and for no other.
pub proof fn lemma_text_round_trip(t: Tile)
    requires
        tile_text(t) is Some,
    ensures
        text_tile(tile_text(t).unwrap().0, tile_text(t).unwrap().1) == Some(t),
{
}

/// Writing gives back what was read: two characters that stand for a tile
/// are the text of that tile.
pub proof fn lemma_tile_round_trip(a: u8, b: u8)
    requires
        text_tile(a, b) is Some,
    ensures
        tile_text(text_tile(a, b).unwrap()) == Some((a, b)),
{
}

/// The two characters for a tile, if it has a text.
pub fn text_of(t: Tile) -> (r: Option<(u8, u8)>)
    ensures
        r == tile_text(t),
{
    match t {
        Tile::Absent => Some((0x20, 0x20)),
        Tile::Empty => Some((0x5f, 0x5f)),
        Tile::Number(v) => {
            if v < 100 {
                Some((0x30 + v / 10, 0x30 + v % 10))
            } else {
                None
            }
        },
    }
}

/// The tile that two characters stand for, if they are the text of one.
pub fn tile_of(a: u8, b: u8) -> (r: Option<Tile>)
    ensures
        r == text_tile(a, b),
{
    if a == 0x20 && b == 0x20 {
        Some(Tile::Absent)
    } else if a == 0x5f && b == 0x5f {
        Some(Tile::Empty)
    } else if 0x30 <= a && a <= 0x39 && 0x30 <= b && b <= 0x39 {
        Some(Tile::Number((a - 0x30) * 10 + (b - 0x30)))
    } else {
        None
    }
}

impl<'a> Puzzle<'a> {
    /// What stands at row `y` and column `x`.
    pub open spec fn tile(&self, y: int, x: int) -> Tile {
        match self.grid().cell_of(y, x) {
            None => Tile::Absent,
            Some(c) => match self@[c] {
                None => Tile::Empty,
                Some(v) => Tile::Number(v),
            },
        }
    }

    /// What stands at row `y` and column `x`.
    pub fn tile_at(&self, y: usize, x: usize) -> (t: Tile)
        requires
            self.wf(),
        ensures
            t == self.tile(y as int, x as int),
    {
        proof {
            self.lemma_wf();
        }
        match self.descriptor().cell_at(y, x) {
            None => Tile::Absent,
            Some(c) => match self.get(c) {
                None => Tile::Empty,
                Some(v) => Tile::Number(v),
            },
        }
    }
}

} // verus!
