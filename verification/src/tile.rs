//! Tile sets: closed enumerations of tile variants.

use std::hash::Hash;
use vstd::prelude::*;

verus! {

/// A closed set of tile variants.
///
/// The wave needs to know every variant there is, in a stable order, and to
/// tell two variants apart. Both come from the enumeration: a variant is
/// identified by its position in it.
pub trait Tile: PartialEq + Eq + Clone + Copy + Hash {
    /// Every variant of the set, in enumeration order.
    spec fn all() -> Seq<Self>;

    /// The enumeration names each value of the type, and names it once.
    proof fn lemma_enumeration()
        ensures
            Self::all().no_duplicates(),
            forall|t: Self| #[trigger] Self::all().contains(t),
    ;

    /// Lists every variant, in enumeration order.
    fn variants() -> (v: Vec<Self>)
        ensures
            v@ == Self::all(),
    ;

    /// The position of this variant in the enumeration.
    fn index(&self) -> (i: usize)
        ensures
            i < Self::all().len(),
            Self::all()[i as int] == *self,
    ;
}

/// A tile set whose variants are drawn as one character each.
pub trait Glyph: Sized {
    /// The character that stands for this variant.
    spec fn glyph_of(self) -> char;

    /// Returns the character that stands for this variant.
    fn glyph(&self) -> (c: char)
        ensures
            c == self.glyph_of(),
    ;
}

/// The position of `t` in the enumeration of its tile set.
pub open spec fn ordinal<T: Tile>(t: T) -> nat {
    T::all().index_of(t) as nat
}

/// The ordinal of a variant is a valid position, and the variant stands there.
pub proof fn lemma_ordinal<T: Tile>(t: T)
    ensures
        ordinal(t) < T::all().len(),
        T::all()[ordinal(t) as int] == t,
{
    T::lemma_enumeration();
    assert(T::all().contains(t));
}

/// A variant stands at no position but its ordinal.
pub proof fn lemma_ordinal_unique<T: Tile>(t: T, i: int)
    requires
        0 <= i < T::all().len(),
        T::all()[i] == t,
    ensures
        ordinal(t) == i,
{
    T::lemma_enumeration();
    lemma_ordinal(t);
}

/// Two variants with the same ordinal are the same variant.
pub proof fn lemma_ordinal_injective<T: Tile>(a: T, b: T)
    requires
        ordinal(a) == ordinal(b),
    ensures
        a == b,
{
    lemma_ordinal(a);
    lemma_ordinal(b);
}

/// The smallest tile set worth collapsing: a cell is empty or filled.
#[derive(Debug, Clone, Copy, PartialEq, Eq, Hash, Structural)]
pub enum SimpleTile {
    Empty,
    Filled,
}

impl Tile for SimpleTile {
    open spec fn all() -> Seq<Self> {
        seq![SimpleTile::Empty, SimpleTile::Filled]
    }

    proof fn lemma_enumeration() {
        let all = Self::all();
        assert forall|t: Self| #[trigger] all.contains(t) by {
            let i: int = match t {
                SimpleTile::Empty => 0,
                SimpleTile::Filled => 1,
            };
            assert(all[i] == t);
        }
    }

    fn variants() -> (v: Vec<Self>) {
        vec![SimpleTile::Empty, SimpleTile::Filled]
    }

    fn index(&self) -> (i: usize) {
        match self {
            SimpleTile::Empty => 0,
            SimpleTile::Filled => 1,
        }
    }
}

impl Glyph for SimpleTile {
    open spec fn glyph_of(self) -> char {
        match self {
            SimpleTile::Empty => '.',
            SimpleTile::Filled => '#',
        }
    }

    fn glyph(&self) -> (c: char) {
        match self {
            SimpleTile::Empty => '.',
            SimpleTile::Filled => '#',
        }
    }
}

/// The pieces of a maze drawn with box-drawing characters.
#[derive(Debug, Clone, Copy, PartialEq, Eq, Hash, Structural)]
pub enum MazeTile {
    /// A tee opening downwards.
    TShaped,
    /// A tee opening to the left.
    TShapedLeft,
    /// A tee opening to the right.
    TShapedRight,
    /// A tee opening upwards.
    TShapedUpsideDown,
    /// A corner joining left and down.
    TopRightCorner,
    /// A corner joining right and down.
    TopLeftCorner,
    /// A corner joining right and up.
    BottomLeftCorner,
    /// A corner joining left and up.
    BottomRightCorner,
    /// A straight horizontal piece.
    HorizontalLine,
    /// A straight vertical piece.
    VerticalLine,
    /// A crossing of all four directions.
    CenterCross,
    /// No piece at all.
    Empty,
}

impl Tile for MazeTile {
    open spec fn all() -> Seq<Self> {
        seq![
            MazeTile::TShaped,
            MazeTile::TShapedLeft,
            MazeTile::TShapedRight,
            MazeTile::TShapedUpsideDown,
            MazeTile::TopRightCorner,
            MazeTile::TopLeftCorner,
            MazeTile::BottomLeftCorner,
            MazeTile::BottomRightCorner,
            MazeTile::HorizontalLine,
            MazeTile::VerticalLine,
            MazeTile::CenterCross,
            MazeTile::Empty,
        ]
    }

    proof fn lemma_enumeration() {
        let all = Self::all();
        assert forall|t: Self| #[trigger] all.contains(t) by {
            let i: int = match t {
                MazeTile::TShaped => 0,
                MazeTile::TShapedLeft => 1,
                MazeTile::TShapedRight => 2,
                MazeTile::TShapedUpsideDown => 3,
                MazeTile::TopRightCorner => 4,
                MazeTile::TopLeftCorner => 5,
                MazeTile::BottomLeftCorner => 6,
                MazeTile::BottomRightCorner => 7,
                MazeTile::HorizontalLine => 8,
                MazeTile::VerticalLine => 9,
                MazeTile::CenterCross => 10,
                MazeTile::Empty => 11,
            };
            assert(all[i] == t);
        }
    }

    fn variants() -> (v: Vec<Self>) {
        vec![
            MazeTile::TShaped,
            MazeTile::TShapedLeft,
            MazeTile::TShapedRight,
            MazeTile::TShapedUpsideDown,
            MazeTile::TopRightCorner,
            MazeTile::TopLeftCorner,
            MazeTile::BottomLeftCorner,
            MazeTile::BottomRightCorner,
            MazeTile::HorizontalLine,
            MazeTile::VerticalLine,
            MazeTile::CenterCross,
            MazeTile::Empty,
        ]
    }

    fn index(&self) -> (i: usize) {
        match self {
            MazeTile::TShaped => 0,
            MazeTile::TShapedLeft => 1,
            MazeTile::TShapedRight => 2,
            MazeTile::TShapedUpsideDown => 3,
            MazeTile::TopRightCorner => 4,
            MazeTile::TopLeftCorner => 5,
            MazeTile::BottomLeftCorner => 6,
            MazeTile::BottomRightCorner => 7,
            MazeTile::HorizontalLine => 8,
            MazeTile::VerticalLine => 9,
            MazeTile::CenterCross => 10,
            MazeTile::Empty => 11,
        }
    }
}

impl Glyph for MazeTile {
    open spec fn glyph_of(self) -> char {
        match self {
            MazeTile::TShaped => '\u{2533}',
            MazeTile::TShapedLeft => '\u{252b}',
            MazeTile::TShapedRight => '\u{2523}',
            MazeTile::TShapedUpsideDown => '\u{253b}',
            MazeTile::TopRightCorner => '\u{2513}',
            MazeTile::TopLeftCorner => '\u{250f}',
            MazeTile::BottomLeftCorner => '\u{2517}',
            MazeTile::BottomRightCorner => '\u{251b}',
            MazeTile::HorizontalLine => '\u{2501}',
            MazeTile::VerticalLine => '\u{2503}',
            MazeTile::CenterCross => '\u{254b}',
            MazeTile::Empty => ' ',
        }
    }

    fn glyph(&self) -> (c: char) {
        match self {
            MazeTile::TShaped => '\u{2533}',
            MazeTile::TShapedLeft => '\u{252b}',
            MazeTile::TShapedRight => '\u{2523}',
            MazeTile::TShapedUpsideDown => '\u{253b}',
            MazeTile::TopRightCorner => '\u{2513}',
            MazeTile::TopLeftCorner => '\u{250f}',
            MazeTile::BottomLeftCorner => '\u{2517}',
            MazeTile::BottomRightCorner => '\u{251b}',
            MazeTile::HorizontalLine => '\u{2501}',
            MazeTile::VerticalLine => '\u{2503}',
            MazeTile::CenterCross => '\u{254b}',
            MazeTile::Empty => ' ',
        }
    }
}

} // verus!
