use vstd::prelude::*;
use vstd::string::StringSliceAdditionalSpecFns;

verus! {

/// Relies on String::push: appends one character to the string.
#[verifier::external_body]
fn push_char(s: &mut String, c: char)
    ensures
        final(s)@ == old(s)@.push(c),
{
    s.push(c)
}

/// The file letter of a square, `a` to `h`.
pub open spec fn file_char(square: int) -> char {
    ((square % 8) + 97) as char
}

/// The rank digit of a square, `8` for square 0 down to `1` for square 63.
pub open spec fn rank_char(square: int) -> char {
    (56 - square / 8) as char
}

/// The two-character name of a square (`a8` for 0, `h1` for 63).
pub fn square_to_coordinates(square: u8) -> (r: String)
    requires
        square < 64,
    ensures
        r@ == seq![file_char(square as int), rank_char(square as int)],
{
    let file: u8 = square % 8;
    let rank: u8 = square / 8;
    let mut s = String::new();
    push_char(&mut s, (97u8 + file) as char);
    push_char(&mut s, (56u8 - rank) as char);
    assert(s@ =~= seq![file_char(square as int), rank_char(square as int)]);
    s
}

/// The four-character name of a move, origin then destination (`e2e4`).
pub fn move_to_uci(from: u8, to: u8) -> (r: String)
    requires
        from < 64,
        to < 64,
    ensures
        r@ == seq![file_char(from as int), rank_char(from as int), file_char(to as int), rank_char(to as int)],
{
    let mut s = String::new();
    push_char(&mut s, (97u8 + from % 8) as char);
    push_char(&mut s, (56u8 - from / 8) as char);
    push_char(&mut s, (97u8 + to % 8) as char);
    push_char(&mut s, (56u8 - to / 8) as char);
    assert(s@ =~= seq![file_char(from as int), rank_char(from as int), file_char(to as int), rank_char(to as int)]);
    s
}

/// The square named by the two bytes `f`, `r`: a file letter `a`-`h` and a
/// rank digit `1`-`8`.
pub open spec fn square_named(f: u8, r: u8) -> Option<u8> {
    if 97 <= f <= 104 && 49 <= r <= 56 {
        Some(((7 - (r - 49)) * 8 + (f - 97)) as u8)
    } else {
        None
    }
}

/// The square a name starting at byte `i` of `b` denotes, if any.
pub open spec fn name_at(b: Seq<u8>, i: int) -> Option<u8> {
    if b.len() < i + 2 {
        None
    } else {
        square_named(b[i], b[i + 1])
    }
}

/// The square named by bytes `i` and `i + 1` of `b`, if any.
fn parse_square(b: &[u8], i: usize) -> (r: Option<u8>)
    requires
        i + 2 <= b@.len(),
    ensures
        r == square_named(b@[i as int], b@[i + 1]),
        r matches Some(s) ==> s < 64,
{
    let f = b[i];
    let r = b[i + 1];
    if f < 97u8 || f > 104u8 || r < 49u8 || r > 56u8 {
        return None;
    }
    Some((7 - (r - 49u8)) * 8 + (f - 97u8))
}

/// The square named by the first two characters of `coords` (`a8` is 0,
/// `h1` is 63); `None` when they are not a file letter and a rank digit.
pub fn coordinates_to_square(coords: &str) -> (r: Option<u8>)
    ensures
        r == name_at(coords.spec_bytes(), 0),
        r matches Some(s) ==> s < 64,
{
    let b = coords.as_bytes();
    if b.len() < 2 {
        return None;
    }
    parse_square(b, 0)
}

/// The move named by the first four characters of `uci_move` (`e2e4`); a
/// promotion letter after them is ignored.
pub fn uci_to_move(uci_move: &str) -> (r: Option<(u8, u8)>)
    ensures
        r == (if uci_move.spec_bytes().len() < 4 {
            None
        } else {
            match (name_at(uci_move.spec_bytes(), 0), name_at(uci_move.spec_bytes(), 2)) {
                (Some(f), Some(t)) => Some((f, t)),
                _ => None,
            }
        }),
        r matches Some(m) ==> m.0 < 64 && m.1 < 64,
{
    let b = uci_move.as_bytes();
    if b.len() < 4 {
        return None;
    }
    let from = match parse_square(b, 0) {
        Some(s) => s,
        None => return None,
    };
    let to = match parse_square(b, 2) {
        Some(s) => s,
        None => return None,
    };
    Some((from, to))
}

/// The move named by an XBoard move string, which has the same form as a
/// UCI one (`d2d4`, `e7e8q`).
pub fn parse_xboard_move(move_str: &str) -> (r: Option<(u8, u8)>)
    ensures
        r == (if move_str.spec_bytes().len() < 4 {
            None
        } else {
            match (name_at(move_str.spec_bytes(), 0), name_at(move_str.spec_bytes(), 2)) {
                (Some(f), Some(t)) => Some((f, t)),
                _ => None,
            }
        }),
        r matches Some(m) ==> m.0 < 64 && m.1 < 64,
{
    uci_to_move(move_str)
}

} // verus!
