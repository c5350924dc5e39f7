use vstd::prelude::*;
use vstd::string::StringSliceAdditionalSpecFns;
use crate::types::Board;
use crate::utils::{mask, group_bits, set_bit};
use crate::attacks::AttackTables;
use crate::board_state::{BoardState, CastlingRights};
use crate::notation::{coordinates_to_square, name_at};

verus! {

broadcast use group_bits;

/// The plane a FEN piece letter names.
pub open spec fn piece_plane(c: u8) -> Option<usize> {
    if c == 80 {
        Some(0)
    } else if c == 78 {
        Some(1)
    } else if c == 66 {
        Some(2)
    } else if c == 82 {
        Some(3)
    } else if c == 81 {
        Some(4)
    } else if c == 75 {
        Some(5)
    } else if c == 112 {
        Some(6)
    } else if c == 110 {
        Some(7)
    } else if c == 98 {
        Some(8)
    } else if c == 114 {
        Some(9)
    } else if c == 113 {
        Some(10)
    } else if c == 107 {
        Some(11)
    } else {
        None
    }
}

/// `x + d`, kept at 8 once past the board's edge: beyond it only "past the
/// edge" matters.
pub open spec fn capped(x: int, d: int) -> int {
    if x + d > 8 {
        8
    } else {
        x + d
    }
}

/// The planes described by the placement field `b` from byte `i` on, with
/// the cursor on `rank`, `file` and the planes so far `acc`: `/` starts the
/// next rank, a digit skips that many files, a piece letter puts a piece on
/// the cursor and moves it right; a piece letter off the board, or any other
/// byte, makes the field invalid.
pub open spec fn placement(b: Seq<u8>, i: int, rank: int, file: int, acc: Seq<u64>) -> Option<Seq<u64>>
    decreases b.len() - i,
{
    if i >= b.len() || i < 0 {
        Some(acc)
    } else {
        let c = b[i];
        if c == 47 {
            placement(b, i + 1, capped(rank, 1), 0, acc)
        } else if 48 <= c <= 57 {
            placement(b, i + 1, rank, capped(file, c - 48), acc)
        } else if file >= 8 || rank >= 8 {
            None
        } else {
            match piece_plane(c) {
                Some(p) => placement(b, i + 1, rank, file + 1, acc.update(p as int, acc[p as int] | mask(rank * 8 + file))),
                None => None,
            }
        }
    }
}

/// The plane a FEN piece letter names.
fn plane_of(c: u8) -> (r: Option<usize>)
    ensures
        r == piece_plane(c),
{
    if c == 80 {
        Some(0)
    } else if c == 78 {
        Some(1)
    } else if c == 66 {
        Some(2)
    } else if c == 82 {
        Some(3)
    } else if c == 81 {
        Some(4)
    } else if c == 75 {
        Some(5)
    } else if c == 112 {
        Some(6)
    } else if c == 110 {
        Some(7)
    } else if c == 98 {
        Some(8)
    } else if c == 114 {
        Some(9)
    } else if c == 113 {
        Some(10)
    } else if c == 107 {
        Some(11)
    } else {
        None
    }
}

/// The twelve planes a FEN placement field describes, rank 8 first.
pub fn parse_placement(field: &str) -> (r: Option<Board>)
    ensures
        match placement(field.spec_bytes(), 0, 0, 0, seq![0u64; 12]) {
            Some(p) => r matches Some(bb) && bb@ == p,
            None => r is None,
        },
{
    let b = field.as_bytes();
    let mut planes: Board = [0u64; 12];
    let mut rank: usize = 0;
    let mut file: usize = 0;
    let mut i: usize = 0;
    assert(planes@ =~= seq![0u64; 12]);
    while i < b.len()
        invariant
            b@ == field.spec_bytes(),
            i <= b@.len(),
            rank <= 8,
            file <= 8,
            placement(b@, i as int, rank as int, file as int, planes@) == placement(
                b@,
                0,
                0,
                0,
                seq![0u64; 12],
            ),
        decreases b@.len() - i,
    {
        let c = b[i];
        if c == 47 {
            rank = if rank >= 7 { 8 } else { rank + 1 };
            file = 0;
        } else if c >= 48 && c <= 57 {
            let d = (c - 48) as usize;
            file = if file + d > 8 { 8 } else { file + d };
        } else {
            if file >= 8 || rank >= 8 {
                return None;
            }
            match plane_of(c) {
                Some(p) => {
                    let mut v = planes[p];
                    set_bit(&mut v, (rank * 8 + file) as u8);
                    planes[p] = v;
                    file = file + 1;
                },
                None => return None,
            }
        }
        i = i + 1;
    }
    Some(planes)
}

/// The byte `c` occurs in `b`.
pub open spec fn has_byte(b: Seq<u8>, c: u8) -> bool {
    exists|i: int| 0 <= i < b.len() && b[i] == c
}

/// Whether the byte `c` occurs in `b`.
fn find_byte(b: &[u8], c: u8) -> (r: bool)
    ensures
        r == has_byte(b@, c),
{
    let mut i: usize = 0;
    while i < b.len()
        invariant
            i <= b@.len(),
            forall|j: int| 0 <= j < i ==> b@[j] != c,
        decreases b@.len() - i,
    {
        if b[i] == c {
            return true;
        }
        i = i + 1;
    }
    false
}

/// The rights a FEN castling field grants: `-` grants none, otherwise each
/// of `K`, `Q`, `k`, `q` present grants its right.
pub open spec fn castling_field(b: Seq<u8>) -> CastlingRights {
    if b == seq![45u8] {
        (false, false, false, false)
    } else {
        (has_byte(b, 75), has_byte(b, 81), has_byte(b, 107), has_byte(b, 113))
    }
}

/// The castling rights of a FEN castling field.
pub fn parse_castling(field: &str) -> (r: CastlingRights)
    ensures
        r == castling_field(field.spec_bytes()),
{
    let b = field.as_bytes();
    if b.len() == 1 && b[0] == 45 {
        assert(b@ =~= seq![45u8]);
        return (false, false, false, false);
    }
    assert(b@ != seq![45u8]);
    (find_byte(b, 75), find_byte(b, 81), find_byte(b, 107), find_byte(b, 113))
}

/// The position of a FEN record given by its fields: the placement, then
/// the side to move (`w` for White, anything else Black, White when
/// missing), the castling field (no rights when missing) and the en-passant
/// field (`-` or missing for none). `None` when the placement is invalid.
pub fn parse_fen_fields(
    tables: &AttackTables,
    placement_field: &str,
    side: Option<&str>,
    castling: Option<&str>,
    en_passant: Option<&str>,
) -> (r: Option<BoardState>)
    requires
        tables.wf(),
    ensures
        placement(placement_field.spec_bytes(), 0, 0, 0, seq![0u64; 12]) is None <==> r is None,
        r matches Some(b) ==> {
            &&& b.wf()
            &&& Some(b.bitboards@) == placement(placement_field.spec_bytes(), 0, 0, 0, seq![0u64; 12])
            &&& b.white_to_move == match side {
                Some(s) => s.spec_bytes() == seq![119u8],
                None => true,
            }
            &&& b.rights() == match castling {
                Some(c) => castling_field(c.spec_bytes()),
                None => (false, false, false, false),
            }
            &&& b.en_passant_target == match en_passant {
                Some(e) => if e.spec_bytes() == seq![45u8] {
                    None
                } else {
                    name_at(e.spec_bytes(), 0)
                },
                None => None,
            }
        },
{
    let bitboards = match parse_placement(placement_field) {
        Some(p) => p,
        None => return None,
    };
    let white_to_move = match side {
        Some(s) => {
            let sb = s.as_bytes();
            let w = sb.len() == 1 && sb[0] == 119;
            proof {
                if sb@.len() == 1 && sb@[0] == 119 {
                    assert(sb@ =~= seq![119u8]);
                }
            }
            w
        },
        None => true,
    };
    let rights = match castling {
        Some(c) => parse_castling(c),
        None => (false, false, false, false),
    };
    let en_passant_target = match en_passant {
        Some(e) => {
            let eb = e.as_bytes();
            if eb.len() == 1 && eb[0] == 45 {
                assert(eb@ =~= seq![45u8]);
                None
            } else {
                assert(eb@ != seq![45u8]);
                coordinates_to_square(e)
            }
        },
        None => None,
    };
    let mut board_state = BoardState {
        bitboards,
        white_to_move,
        white_kingside_castle: rights.0,
        white_queenside_castle: rights.1,
        black_kingside_castle: rights.2,
        black_queenside_castle: rights.3,
        white_king_in_check: false,
        black_king_in_check: false,
        en_passant_target,
    };
    board_state.update_check_status(tables);
    Some(board_state)
}

} // verus!
