use vstd::prelude::*;

verus! {

/// Plane index of the white pawns.
pub const WP: usize = 0;
/// Plane index of the white knights.
pub const WN: usize = 1;
/// Plane index of the white bishops.
pub const WB: usize = 2;
/// Plane index of the white rooks.
pub const WR: usize = 3;
/// Plane index of the white queens.
pub const WQ: usize = 4;
/// Plane index of the white king.
pub const WK: usize = 5;
/// Plane index of the black pawns.
pub const BP: usize = 6;
/// Plane index of the black knights.
pub const BN: usize = 7;
/// Plane index of the black bishops.
pub const BB: usize = 8;
/// Plane index of the black rooks.
pub const BR: usize = 9;
/// Plane index of the black queens.
pub const BQ: usize = 10;
/// Plane index of the black king.
pub const BK: usize = 11;

/// The twelve piece planes of a position, indexed by `WP..=BK`.
pub type Board = [u64; 12];

/// The standard initial layout, plane by plane (square 0 is a8, 63 is h1).
pub open spec fn initial_board() -> Seq<u64> {
    seq![
        0x00ff_0000_0000_0000u64,
        0x4200_0000_0000_0000u64,
        0x2400_0000_0000_0000u64,
        0x8100_0000_0000_0000u64,
        0x0800_0000_0000_0000u64,
        0x1000_0000_0000_0000u64,
        0x0000_0000_0000_ff00u64,
        0x0000_0000_0000_0042u64,
        0x0000_0000_0000_0024u64,
        0x0000_0000_0000_0081u64,
        0x0000_0000_0000_0008u64,
        0x0000_0000_0000_0010u64,
    ]
}

/// Builds the twelve planes of the standard initial position.
pub fn create_board() -> (r: Board)
    ensures
        r@ == initial_board(),
{
    let r: Board = [
        0x00ff_0000_0000_0000u64,
        0x4200_0000_0000_0000u64,
        0x2400_0000_0000_0000u64,
        0x8100_0000_0000_0000u64,
        0x0800_0000_0000_0000u64,
        0x1000_0000_0000_0000u64,
        0x0000_0000_0000_ff00u64,
        0x0000_0000_0000_0042u64,
        0x0000_0000_0000_0024u64,
        0x0000_0000_0000_0081u64,
        0x0000_0000_0000_0008u64,
        0x0000_0000_0000_0010u64,
    ];
    assert(r@ =~= initial_board());
    r
}

} // verus!
