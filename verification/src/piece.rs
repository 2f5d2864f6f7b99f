use vstd::prelude::*;
use crate::bitset::Bitset;
use crate::minmax::lemma_minmax;
use crate::orientation::Orintaion;
use crate::orientation::blocks_of;
use crate::orientation::spec_orientations;
use crate::orientation::anchored_within;
use crate::orientation::is_anchored_translate;
use crate::orientation::contains_all;
use crate::orientation::max_extent;
use crate::orientation::spec_placements;
use crate::orientation::xs;
use crate::orientation::ys;
use crate::orientation::zs;

verus! {

/// Color tag of a piece: a closed variant set carrying no logic of its own,
/// threaded through to the display layer.
#[derive(Clone, Copy, Debug, PartialEq, Eq, Structural)]
pub enum Color {
    Red,
    Yellow,
    Blue,
    White,
}

/// Relies on colored's `Colorize::red` on `&str` and `ColoredString`'s
/// `Display`: whether the ANSI escape codes appear depends on the terminal
/// environment, so nothing is stated of the result.
#[verifier::external_body]
fn style_red(s: &str) -> String {
    colored::Colorize::red(s).to_string()
}

/// Relies on colored's `Colorize::yellow`, as `style_red` does.
#[verifier::external_body]
fn style_yellow(s: &str) -> String {
    colored::Colorize::yellow(s).to_string()
}

/// Relies on colored's `Colorize::blue`, as `style_red` does.
#[verifier::external_body]
fn style_blue(s: &str) -> String {
    colored::Colorize::blue(s).to_string()
}

/// Relies on colored's `Colorize::white`, as `style_red` does.
#[verifier::external_body]
fn style_white(s: &str) -> String {
    colored::Colorize::white(s).to_string()
}

/// Relies on `char::to_string`: the string holding exactly the one character.
#[verifier::external_body]
fn char_to_string(c: char) -> (r: String)
    ensures
        r@ == seq![c],
{
    c.to_string()
}

impl Color {
    /// Styles the given text for terminal display in this color. The result
    /// depends on the terminal environment and carries no contract.
    pub fn color(&self, text: &str) -> String {
        match self {
            Color::Red => style_red(text),
            Color::Yellow => style_yellow(text),
            Color::Blue => style_blue(text),
            Color::White => style_white(text),
        }
    }
}

/// Flattened placement masks of a list of orientations, in order.
pub open spec fn flat_placements(os: Seq<Orintaion>) -> Seq<u64>
    decreases os.len(),
{
    if os.len() == 0 {
        Seq::empty()
    } else {
        flat_placements(os.drop_last()) + spec_placements(os.last().blocks@)
    }
}

/// A puzzle piece, immutable after construction: identity, display name,
/// color tag, block count, the deduplicated list of rotational orientations,
/// and the flat list of every precomputed placement mask.
#[derive(Clone, Debug, PartialEq)]
pub struct Piece {
    pub piece_id: usize,
    pub name: String,
    pub color: Color,
    pub size: usize,
    pub orintations: Vec<Orintaion>,
    pub placements: Vec<Bitset>,
}

impl Piece {
    /// Builds a piece from its canonical orientation: enumerates all distinct
    /// rotations and precomputes every legal placement mask, once.
    pub fn new(piece_id: usize, name: String, color: Color, orintaion: Orintaion) -> (r: Piece)
        requires
            orintaion.blocks@.len() > 0,
            max_extent(orintaion.blocks@) <= i32::MAX - 3,
        ensures
            r.piece_id == piece_id,
            r.name == name,
            r.color == color,
            r.size == orintaion.blocks@.len(),
            1 <= r.orintations@.len() <= 25,
            forall|k: int|
                0 <= k < r.orintations@.len() ==> r.orintations@[k].blocks@.len()
                    == orintaion.blocks@.len(),
            is_anchored_translate(r.orintations@[0].blocks@, orintaion.blocks@),
            forall|a: int, b: int|
                0 <= a < b < r.orintations@.len() ==> !contains_all(
                    r.orintations@[a].blocks@,
                    r.orintations@[b].blocks@,
                ),
            blocks_of(r.orintations@) == spec_orientations(orintaion.blocks@),
            r.placements@.len() == flat_placements(r.orintations@).len(),
            forall|k: int|
                0 <= k < r.placements@.len() ==> r.placements@[k].bits == flat_placements(
                    r.orintations@,
                )[k],
    {
        let size = orintaion.blocks.len();
        let oris = orintaion.all_orintations();
        let ghost e = max_extent(orintaion.blocks@);
        let mut placements: Vec<Bitset> = Vec::new();
        let mut o: usize = 0;
        while o < oris.len()
            invariant
                o <= oris@.len(),
                0 <= e <= i32::MAX - 3,
                forall|k: int| 0 <= k < oris@.len() ==> anchored_within(oris@[k].blocks@, e),
                forall|k: int| 0 <= k < oris@.len() ==> oris@[k].blocks@.len() > 0,
                placements@.len() == flat_placements(oris@.take(o as int)).len(),
                forall|k: int|
                    0 <= k < placements@.len() ==> placements@[k].bits == flat_placements(
                        oris@.take(o as int),
                    )[k],
            decreases oris@.len() - o,
        {
            proof {
                let b = oris@[o as int].blocks@;
                lemma_minmax(xs(b));
                lemma_minmax(ys(b));
                lemma_minmax(zs(b));
                assert forall|i: int| 0 <= i < b.len() implies b[i].x <= i32::MAX - 3 && b[i].y
                    <= i32::MAX - 3 && b[i].z <= i32::MAX - 3 by {
                    assert(xs(b)[i] == b[i].x && ys(b)[i] == b[i].y && zs(b)[i] == b[i].z);
                }
            }
            let masks = oris[o].placements();
            let mut m: usize = 0;
            while m < masks.len()
                invariant
                    m <= masks@.len(),
                    masks@.len() == spec_placements(oris@[o as int].blocks@).len(),
                    forall|k: int|
                        0 <= k < masks@.len() ==> masks@[k].bits == spec_placements(
                            oris@[o as int].blocks@,
                        )[k],
                    o < oris@.len(),
                    placements@.len() == flat_placements(oris@.take(o as int)).len() + m,
                    forall|k: int|
                        0 <= k < flat_placements(oris@.take(o as int)).len() ==> placements@[k].bits
                            == flat_placements(oris@.take(o as int))[k],
                    forall|k: int|
                        0 <= k < m ==> placements@[flat_placements(oris@.take(o as int)).len() + k].bits
                            == spec_placements(oris@[o as int].blocks@)[k],
                decreases masks@.len() - m,
            {
                placements.push(masks[m]);
                m += 1;
            }
            proof {
                assert(oris@.take(o + 1).drop_last() =~= oris@.take(o as int));
                assert(oris@.take(o + 1).last() == oris@[o as int]);
                assert(flat_placements(oris@.take(o + 1)) == flat_placements(oris@.take(o as int))
                    + spec_placements(oris@[o as int].blocks@));
            }
            o += 1;
        }
        proof {
            assert(oris@.take(oris@.len() as int) =~= oris@);
        }
        Piece { piece_id, name, color, size, orintations: oris, placements }
    }

    /// The display character of the piece id: digits 0-9 for ids 0-9, then
    /// capital letters for ids 10-35. Larger ids are invalid by construction.
    pub fn char_id(&self) -> (r: char)
        requires
            self.piece_id <= 35,
        ensures
            self.piece_id <= 9 ==> r as int == '0' as int + self.piece_id,
            self.piece_id >= 10 ==> r as int == 'A' as int + self.piece_id - 10,
    {
        if self.piece_id <= 9 {
            (self.piece_id as u8 + 48) as char
        } else {
            (self.piece_id as u8 + 65 - 10) as char
        }
    }

    /// The display character, styled in the piece's color.
    pub fn colored_id(&self) -> String
        requires
            self.piece_id <= 35,
    {
        let c = self.char_id();
        let s = char_to_string(c);
        self.color.color(s.as_str())
    }

    /// The display name, styled in the piece's color.
    pub fn colored_name(&self) -> String {
        self.color.color(self.name.as_str())
    }
}

} // verus!
