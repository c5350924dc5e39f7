use vstd::prelude::*;
use crate::utils::{bit, mask, is_square, group_bits, set_bit, get_bit};

verus! {

broadcast use group_bits;

/// Rank of a square: 0 is the eighth rank, 7 the first.
pub open spec fn rank(s: int) -> int {
    s / 8
}

/// File of a square: 0 is the a-file.
pub open spec fn file(s: int) -> int {
    s % 8
}

/// Rank `r` and file `f` name a square of the board.
pub open spec fn on_board(r: int, f: int) -> bool {
    0 <= r < 8 && 0 <= f < 8
}

/// `t` is the square reached from rank `r`, file `f` by the offset `(dr, df)`,
/// and that square is on the board.
pub open spec fn step_target(r: int, f: int, dr: int, df: int, t: int) -> bool {
    on_board(r + dr, f + df) && t == (r + dr) * 8 + f + df
}

/// A knight on `s` attacks `t`.
pub open spec fn knight_attack(s: int, t: int) -> bool {
    let r = rank(s);
    let f = file(s);
    step_target(r, f, 2, 1, t) || step_target(r, f, 2, -1, t) || step_target(r, f, -2, 1, t)
        || step_target(r, f, -2, -1, t) || step_target(r, f, 1, 2, t) || step_target(r, f, 1, -2, t)
        || step_target(r, f, -1, 2, t) || step_target(r, f, -1, -2, t)
}

/// A king on `s` attacks `t`.
pub open spec fn king_attack(s: int, t: int) -> bool {
    let r = rank(s);
    let f = file(s);
    step_target(r, f, 1, 0, t) || step_target(r, f, -1, 0, t) || step_target(r, f, 0, 1, t)
        || step_target(r, f, 0, -1, t) || step_target(r, f, 1, 1, t) || step_target(r, f, 1, -1, t)
        || step_target(r, f, -1, 1, t) || step_target(r, f, -1, -1, t)
}

/// A pawn of the given colour on `s` attacks `t`: one square diagonally
/// forward, towards rank index 0 for White and towards 7 for Black.
pub open spec fn pawn_attack(white: bool, s: int, t: int) -> bool {
    let r = rank(s);
    let f = file(s);
    if white {
        step_target(r, f, -1, -1, t) || step_target(r, f, -1, 1, t)
    } else {
        step_target(r, f, 1, -1, t) || step_target(r, f, 1, 1, t)
    }
}

/// Squares left before a coordinate leaves the board when moving by `d`.
pub open spec fn room(x: int, d: int) -> int {
    if d > 0 {
        8 - x
    } else if d < 0 {
        x + 1
    } else {
        0
    }
}

/// `t` is hit by a ray cast from rank `r`, file `f` in direction `(dr, df)`:
/// the ray stops at the edge and at the first square of `occ`, which it hits.
pub open spec fn ray_from(r: int, f: int, dr: int, df: int, occ: u64, t: int) -> bool
    decreases room(r, dr) + room(f, df),
{
    if dr == 0 && df == 0 {
        false
    } else if !on_board(r + dr, f + df) || !on_board(r, f) {
        false
    } else if t == (r + dr) * 8 + f + df {
        true
    } else if bit(occ, (r + dr) * 8 + f + df) {
        false
    } else {
        ray_from(r + dr, f + df, dr, df, occ, t)
    }
}

/// A bishop on `s` attacks `t` given the blockers `occ`.
pub open spec fn bishop_ray(s: int, occ: u64, t: int) -> bool {
    let r = rank(s);
    let f = file(s);
    ray_from(r, f, -1, 1, occ, t) || ray_from(r, f, -1, -1, occ, t) || ray_from(r, f, 1, 1, occ, t)
        || ray_from(r, f, 1, -1, occ, t)
}

/// A rook on `s` attacks `t` given the blockers `occ`.
pub open spec fn rook_ray(s: int, occ: u64, t: int) -> bool {
    let r = rank(s);
    let f = file(s);
    ray_from(r, f, -1, 0, occ, t) || ray_from(r, f, 1, 0, occ, t) || ray_from(r, f, 0, 1, occ, t)
        || ray_from(r, f, 0, -1, occ, t)
}

/// A queen on `s` attacks `t` given the blockers `occ`.
pub open spec fn queen_ray(s: int, occ: u64, t: int) -> bool {
    bishop_ray(s, occ, t) || rook_ray(s, occ, t)
}

/// Adds to `attack_mask` the square at offset `(dr, df)` from rank `r`, file
/// `f`, when it is on the board.
fn add_offset(attack_mask: u64, r: i32, f: i32, dr: i32, df: i32) -> (m: u64)
    requires
        on_board(r as int, f as int),
        -2 <= dr <= 2,
        -2 <= df <= 2,
    ensures
        forall|t: int| is_square(t) ==> #[trigger] bit(m, t) == (bit(attack_mask, t) || step_target(
            r as int, f as int, dr as int, df as int, t)),
{
    let nr = r + dr;
    let nf = f + df;
    if nr >= 0 && nr < 8 && nf >= 0 && nf < 8 {
        let mut m = attack_mask;
        set_bit(&mut m, (nr * 8 + nf) as u8);
        m
    } else {
        attack_mask
    }
}

/// The knight attack mask of one square.
fn knight_mask(square: u8) -> (m: u64)
    requires
        square < 64,
    ensures
        forall|t: int| is_square(t) ==> #[trigger] bit(m, t) == knight_attack(square as int, t),
{
    let r = (square / 8) as i32;
    let f = (square % 8) as i32;
    let mut m: u64 = 0;
    m = add_offset(m, r, f, 2, 1);
    m = add_offset(m, r, f, 2, -1);
    m = add_offset(m, r, f, -2, 1);
    m = add_offset(m, r, f, -2, -1);
    m = add_offset(m, r, f, 1, 2);
    m = add_offset(m, r, f, 1, -2);
    m = add_offset(m, r, f, -1, 2);
    m = add_offset(m, r, f, -1, -2);
    m
}

/// The king attack mask of one square.
fn king_mask(square: u8) -> (m: u64)
    requires
        square < 64,
    ensures
        forall|t: int| is_square(t) ==> #[trigger] bit(m, t) == king_attack(square as int, t),
{
    let r = (square / 8) as i32;
    let f = (square % 8) as i32;
    let mut m: u64 = 0;
    m = add_offset(m, r, f, 1, 0);
    m = add_offset(m, r, f, -1, 0);
    m = add_offset(m, r, f, 0, 1);
    m = add_offset(m, r, f, 0, -1);
    m = add_offset(m, r, f, 1, 1);
    m = add_offset(m, r, f, 1, -1);
    m = add_offset(m, r, f, -1, 1);
    m = add_offset(m, r, f, -1, -1);
    m
}

/// The pawn attack mask of one square for one colour.
fn pawn_mask(square: u8, white: bool) -> (m: u64)
    requires
        square < 64,
    ensures
        forall|t: int| is_square(t) ==> #[trigger] bit(m, t) == pawn_attack(white, square as int, t),
{
    let r = (square / 8) as i32;
    let f = (square % 8) as i32;
    let dr: i32 = if white { -1 } else { 1 };
    let m = add_offset(0, r, f, dr, -1);
    add_offset(m, r, f, dr, 1)
}

/// A table of 64 masks that holds, for each square `s`, exactly the squares
/// `t` with `attack(s, t)`.
pub open spec fn table_matches(table: Seq<u64>, attack: spec_fn(int, int) -> bool) -> bool {
    table.len() == 64 && forall|s: int, t: int|
        is_square(s) && is_square(t) ==> #[trigger] bit(table[s], t) == attack(s, t)
}

/// The knight attack table: entry `s` holds every square a knight on `s` attacks.
pub fn precompute_knight_attacks() -> (r: [u64; 64])
    ensures
        table_matches(r@, |s: int, t: int| knight_attack(s, t)),
{
    let mut attacks: [u64; 64] = [0u64; 64];
    let mut square: u8 = 0;
    while square < 64
        invariant
            square <= 64,
            forall|s: int, t: int|
                0 <= s < square && is_square(t) ==> #[trigger] bit(attacks@[s], t) == knight_attack(s, t),
        decreases 64 - square,
    {
        let m = knight_mask(square);
        attacks[square as usize] = m;
        square = square + 1;
    }
    attacks
}

/// The king attack table: entry `s` holds every square a king on `s` attacks.
pub fn precompute_king_attacks() -> (r: [u64; 64])
    ensures
        table_matches(r@, |s: int, t: int| king_attack(s, t)),
{
    let mut attacks: [u64; 64] = [0u64; 64];
    let mut square: u8 = 0;
    while square < 64
        invariant
            square <= 64,
            forall|s: int, t: int|
                0 <= s < square && is_square(t) ==> #[trigger] bit(attacks@[s], t) == king_attack(s, t),
        decreases 64 - square,
    {
        let m = king_mask(square);
        attacks[square as usize] = m;
        square = square + 1;
    }
    attacks
}

/// The pawn attack tables, White's first and Black's second.
pub fn precompute_pawn_attacks() -> (r: ([u64; 64], [u64; 64]))
    ensures
        table_matches(r.0@, |s: int, t: int| pawn_attack(true, s, t)),
        table_matches(r.1@, |s: int, t: int| pawn_attack(false, s, t)),
{
    let mut white_attacks: [u64; 64] = [0u64; 64];
    let mut black_attacks: [u64; 64] = [0u64; 64];
    let mut square: u8 = 0;
    while square < 64
        invariant
            square <= 64,
            forall|s: int, t: int|
                0 <= s < square && is_square(t) ==> #[trigger] bit(white_attacks@[s], t) == pawn_attack(
                    true,
                    s,
                    t,
                ),
            forall|s: int, t: int|
                0 <= s < square && is_square(t) ==> #[trigger] bit(black_attacks@[s], t) == pawn_attack(
                    false,
                    s,
                    t,
                ),
        decreases 64 - square,
    {
        let w = pawn_mask(square, true);
        let b = pawn_mask(square, false);
        white_attacks[square as usize] = w;
        black_attacks[square as usize] = b;
        square = square + 1;
    }
    (white_attacks, black_attacks)
}

/// Adds to `attacks` every square hit by a ray cast from rank `r`, file `f`
/// in direction `(dr, df)`, stopping at the edge or at the first blocker,
/// which is included.
fn cast_ray(r: i32, f: i32, dr: i32, df: i32, blockers: u64, attacks: u64) -> (m: u64)
    requires
        on_board(r as int, f as int),
        -1 <= dr <= 1,
        -1 <= df <= 1,
        dr != 0 || df != 0,
    ensures
        forall|t: int| is_square(t) ==> #[trigger] bit(m, t) == (bit(attacks, t) || ray_from(
            r as int, f as int, dr as int, df as int, blockers, t)),
{
    let mut acc = attacks;
    let mut cr = r;
    let mut cf = f;
    loop
        invariant
            on_board(cr as int, cf as int),
            -1 <= dr <= 1,
            -1 <= df <= 1,
            dr != 0 || df != 0,
            forall|t: int|
                is_square(t) ==> (bit(acc, t) || ray_from(cr as int, cf as int, dr as int, df as int, blockers, t))
                == (bit(attacks, t) || ray_from(r as int, f as int, dr as int, df as int, blockers, t)),
        decreases room(cr as int, dr as int) + room(cf as int, df as int),
    {
        let nr = cr + dr;
        let nf = cf + df;
        if !(nr >= 0 && nr < 8 && nf >= 0 && nf < 8) {
            assert forall|t: int| is_square(t) implies !ray_from(
                cr as int,
                cf as int,
                dr as int,
                df as int,
                blockers,
                t,
            ) by {
                reveal_with_fuel(ray_from, 1);
            }
            return acc;
        }
        let target = (nr * 8 + nf) as u8;
        let old_acc = acc;
        set_bit(&mut acc, target);
        assert forall|t: int| is_square(t) implies ray_from(cr as int, cf as int, dr as int, df as int, blockers, t)
            == (t == target as int || (!bit(blockers, target as int) && ray_from(
                nr as int,
                nf as int,
                dr as int,
                df as int,
                blockers,
                t,
            ))) by {
            reveal_with_fuel(ray_from, 1);
        }
        if get_bit(blockers, target) {
            return acc;
        }
        cr = nr;
        cf = nf;
    }
}

/// Squares a bishop on `square` attacks, given the blockers.
pub fn get_bishop_attacks(square: u8, blockers: u64) -> (r: u64)
    requires
        square < 64,
    ensures
        forall|t: int| is_square(t) ==> #[trigger] bit(r, t) == bishop_ray(square as int, blockers, t),
{
    let r = (square / 8) as i32;
    let f = (square % 8) as i32;
    let mut attacks: u64 = 0;
    attacks = cast_ray(r, f, -1, 1, blockers, attacks);
    attacks = cast_ray(r, f, -1, -1, blockers, attacks);
    attacks = cast_ray(r, f, 1, 1, blockers, attacks);
    attacks = cast_ray(r, f, 1, -1, blockers, attacks);
    attacks
}

/// Squares a rook on `square` attacks, given the blockers.
pub fn get_rook_attacks(square: u8, blockers: u64) -> (r: u64)
    requires
        square < 64,
    ensures
        forall|t: int| is_square(t) ==> #[trigger] bit(r, t) == rook_ray(square as int, blockers, t),
{
    let r = (square / 8) as i32;
    let f = (square % 8) as i32;
    let mut attacks: u64 = 0;
    attacks = cast_ray(r, f, -1, 0, blockers, attacks);
    attacks = cast_ray(r, f, 1, 0, blockers, attacks);
    attacks = cast_ray(r, f, 0, 1, blockers, attacks);
    attacks = cast_ray(r, f, 0, -1, blockers, attacks);
    attacks
}

/// Squares a queen on `square` attacks, given the blockers.
pub fn get_queen_attacks(square: u8, blockers: u64) -> (r: u64)
    requires
        square < 64,
    ensures
        forall|t: int| is_square(t) ==> #[trigger] bit(r, t) == queen_ray(square as int, blockers, t),
{
    get_bishop_attacks(square, blockers) | get_rook_attacks(square, blockers)
}

/// The four fixed attack tables: knight, king, and the pawns of each colour.
pub struct AttackTables {
    pub knight: [u64; 64],
    pub king: [u64; 64],
    pub white_pawn: [u64; 64],
    pub black_pawn: [u64; 64],
}

impl AttackTables {
    /// Each table holds exactly the attacks of its piece.
    pub open spec fn wf(&self) -> bool {
        &&& table_matches(self.knight@, |s: int, t: int| knight_attack(s, t))
        &&& table_matches(self.king@, |s: int, t: int| king_attack(s, t))
        &&& table_matches(self.white_pawn@, |s: int, t: int| pawn_attack(true, s, t))
        &&& table_matches(self.black_pawn@, |s: int, t: int| pawn_attack(false, s, t))
    }

    /// Computes the four tables.
    pub fn new() -> (r: Self)
        ensures
            r.wf(),
    {
        let knight = precompute_knight_attacks();
        let king = precompute_king_attacks();
        let (white_pawn, black_pawn) = precompute_pawn_attacks();
        AttackTables { knight, king, white_pawn, black_pawn }
    }

    /// The attack mask of a pawn of the given colour on `square`.
    pub fn pawn(&self, white: bool, square: u8) -> (r: u64)
        requires
            self.wf(),
            square < 64,
        ensures
            forall|t: int| is_square(t) ==> #[trigger] bit(r, t) == pawn_attack(white, square as int, t),
    {
        if white {
            self.white_pawn[square as usize]
        } else {
            self.black_pawn[square as usize]
        }
    }
}

} // verus!
