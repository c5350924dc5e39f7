use vstd::prelude::*;
use crate::types::{Board, create_board, initial_board};
use crate::attacks::AttackTables;
use crate::attack_bitboards::{is_check, in_check};

verus! {

/// A position: the twelve piece planes, the side to move, the four castling
/// rights, the en-passant target and the cached check flags of both kings.
#[derive(Clone, Copy, Debug)]
pub struct BoardState {
    pub bitboards: Board,
    pub white_to_move: bool,
    pub white_kingside_castle: bool,
    pub white_queenside_castle: bool,
    pub black_kingside_castle: bool,
    pub black_queenside_castle: bool,
    pub white_king_in_check: bool,
    pub black_king_in_check: bool,
    pub en_passant_target: Option<u8>,
}

/// The four castling rights: white kingside, white queenside, black
/// kingside, black queenside.
pub type CastlingRights = (bool, bool, bool, bool);

impl BoardState {
    /// The cached check flags agree with the planes.
    pub open spec fn wf(&self) -> bool {
        &&& self.white_king_in_check == in_check(self.bitboards@, true)
        &&& self.black_king_in_check == in_check(self.bitboards@, false)
    }

    pub open spec fn rights(&self) -> CastlingRights {
        (
            self.white_kingside_castle,
            self.white_queenside_castle,
            self.black_kingside_castle,
            self.black_queenside_castle,
        )
    }

    /// The king of the side to move is in check.
    pub open spec fn current_in_check(&self) -> bool {
        if self.white_to_move {
            self.white_king_in_check
        } else {
            self.black_king_in_check
        }
    }

    /// The standard initial position, White to move with every right held.
    pub fn new(tables: &AttackTables) -> (r: Self)
        requires
            tables.wf(),
        ensures
            r.wf(),
            r.bitboards@ == initial_board(),
            r.white_to_move,
            r.rights() == (true, true, true, true),
            r.en_passant_target is None,
    {
        let bitboards = create_board();
        let white_king_in_check = is_check(tables, bitboards, true);
        let black_king_in_check = is_check(tables, bitboards, false);
        BoardState {
            bitboards,
            white_to_move: true,
            white_kingside_castle: true,
            white_queenside_castle: true,
            black_kingside_castle: true,
            black_queenside_castle: true,
            white_king_in_check,
            black_king_in_check,
            en_passant_target: None,
        }
    }

    /// A king move revokes both rights of its colour.
    pub fn king_moved(&mut self, white: bool)
        ensures
            final(self).rights() == (if white {
                (false, false, old(self).black_kingside_castle, old(self).black_queenside_castle)
            } else {
                (old(self).white_kingside_castle, old(self).white_queenside_castle, false, false)
            }),
            final(self).bitboards == old(self).bitboards,
            final(self).white_to_move == old(self).white_to_move,
            final(self).white_king_in_check == old(self).white_king_in_check,
            final(self).black_king_in_check == old(self).black_king_in_check,
            final(self).en_passant_target == old(self).en_passant_target,
    {
        if white {
            self.white_kingside_castle = false;
            self.white_queenside_castle = false;
        } else {
            self.black_kingside_castle = false;
            self.black_queenside_castle = false;
        }
    }

    /// A rook leaving its home corner revokes the matching right.
    pub fn rook_moved(&mut self, square: u8, white: bool)
        ensures
            final(self).rights() == rights_after_rook_move(old(self).rights(), square as int, white),
            final(self).bitboards == old(self).bitboards,
            final(self).white_to_move == old(self).white_to_move,
            final(self).white_king_in_check == old(self).white_king_in_check,
            final(self).black_king_in_check == old(self).black_king_in_check,
            final(self).en_passant_target == old(self).en_passant_target,
    {
        if white {
            if square == 56 {
                self.white_queenside_castle = false;
            } else if square == 63 {
                self.white_kingside_castle = false;
            }
        } else {
            if square == 0 {
                self.black_queenside_castle = false;
            } else if square == 7 {
                self.black_kingside_castle = false;
            }
        }
    }

    /// The cached check flag of the white king.
    pub fn is_white_king_in_check(&self) -> (r: bool)
        ensures
            r == self.white_king_in_check,
    {
        self.white_king_in_check
    }

    /// The cached check flag of the black king.
    pub fn is_black_king_in_check(&self) -> (r: bool)
        ensures
            r == self.black_king_in_check,
    {
        self.black_king_in_check
    }

    /// The cached check flag of the side to move.
    pub fn is_current_king_in_check(&self) -> (r: bool)
        ensures
            r == self.current_in_check(),
    {
        if self.white_to_move {
            self.white_king_in_check
        } else {
            self.black_king_in_check
        }
    }

    /// Recomputes both check flags from the planes.
    pub fn update_check_status(&mut self, tables: &AttackTables)
        requires
            tables.wf(),
        ensures
            final(self).wf(),
            final(self).bitboards == old(self).bitboards,
            final(self).white_to_move == old(self).white_to_move,
            final(self).rights() == old(self).rights(),
            final(self).en_passant_target == old(self).en_passant_target,
    {
        self.white_king_in_check = is_check(tables, self.bitboards, true);
        self.black_king_in_check = is_check(tables, self.bitboards, false);
    }
}

/// The rights left after a rook of the given colour leaves `square`.
pub open spec fn rights_after_rook_move(r: CastlingRights, square: int, white: bool) -> CastlingRights {
    if white {
        if square == 56 {
            (r.0, false, r.2, r.3)
        } else if square == 63 {
            (false, r.1, r.2, r.3)
        } else {
            r
        }
    } else {
        if square == 0 {
            (r.0, r.1, r.2, false)
        } else if square == 7 {
            (r.0, r.1, false, r.3)
        } else {
            r
        }
    }
}

} // verus!
