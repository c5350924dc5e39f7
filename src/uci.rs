use vstd::prelude::*;
use vstd::string::StringSliceAdditionalSpecFns;
use crate::timing::UCISearchParams;

verus! {

/// A byte `split_whitespace` treats as a separator: space, tab, line feed,
/// vertical tab, form feed or carriage return.
pub open spec fn is_space(c: u8) -> bool {
    c == 32 || (9 <= c <= 13)
}

/// The whitespace-separated tokens of `b` from byte `i` on, `cur` being the
/// token read so far.
pub open spec fn tokens(b: Seq<u8>, i: int, cur: Seq<u8>) -> Seq<Seq<u8>>
    decreases b.len() - i,
{
    if i >= b.len() || i < 0 {
        if cur.len() > 0 {
            seq![cur]
        } else {
            seq![]
        }
    } else if is_space(b[i]) {
        (if cur.len() > 0 {
            seq![cur]
        } else {
            seq![]
        }) + tokens(b, i + 1, seq![])
    } else {
        tokens(b, i + 1, cur.push(b[i]))
    }
}

/// Splits `b` into its whitespace-separated tokens.
fn split_tokens(b: &[u8]) -> (r: Vec<Vec<u8>>)
    ensures
        r@.map_values(|t: Vec<u8>| t@) == tokens(b@, 0, seq![]),
{
    let mut out: Vec<Vec<u8>> = Vec::new();
    let mut cur: Vec<u8> = Vec::new();
    let mut i: usize = 0;
    while i < b.len()
        invariant
            i <= b@.len(),
            out@.map_values(|t: Vec<u8>| t@) + tokens(b@, i as int, cur@) == tokens(b@, 0, seq![]),
        decreases b@.len() - i,
    {
        let c = b[i];
        let ghost before = out@.map_values(|t: Vec<u8>| t@);
        let ghost cur0 = cur@;
        if c == 32 || (c >= 9 && c <= 13) {
            if cur.len() > 0 {
                out.push(cur);
                cur = Vec::new();
                assert(out@.map_values(|t: Vec<u8>| t@) =~= before.push(cur0));
                assert(before + (seq![cur0] + tokens(b@, i + 1, seq![])) =~= before.push(cur0) + tokens(
                    b@,
                    i + 1,
                    seq![],
                ));
            } else {
                assert(seq![] + tokens(b@, i + 1, seq![]) =~= tokens(b@, i + 1, seq![]));
            }
            assert(cur@ =~= seq![]);
        } else {
            cur.push(c);
        }
        i = i + 1;
    }
    if cur.len() > 0 {
        let ghost before = out@.map_values(|t: Vec<u8>| t@);
        let ghost cur0 = cur@;
        out.push(cur);
        assert(out@.map_values(|t: Vec<u8>| t@) =~= before + seq![cur0]);
    } else {
        assert(out@.map_values(|t: Vec<u8>| t@) =~= out@.map_values(|t: Vec<u8>| t@) + seq![]);
    }
    out
}

/// A decimal digit `0`-`9`.
pub open spec fn is_digit(c: u8) -> bool {
    48 <= c <= 57
}

/// The number written by the first `n` bytes of `d`, all digits.
pub open spec fn digits_value(d: Seq<u8>, n: int) -> int
    decreases n,
{
    if n <= 0 {
        0
    } else {
        digits_value(d, n - 1) * 10 + (d[n - 1] - 48)
    }
}

/// Every byte of `d` is a decimal digit.
pub open spec fn all_digits(d: Seq<u8>) -> bool {
    forall|i: int| 0 <= i < d.len() ==> is_digit(#[trigger] d[i])
}

/// `t` without one leading `+`.
pub open spec fn unsigned_part(t: Seq<u8>) -> Seq<u8> {
    if t.len() > 0 && t[0] == 43 {
        t.subrange(1, t.len() as int)
    } else {
        t
    }
}

/// The unsigned number `t` writes, as `str::parse` reads one: an optional
/// `+` and at least one digit, nothing else, and at most `max`.
pub open spec fn decimal(t: Seq<u8>, max: int) -> Option<int> {
    let d = unsigned_part(t);
    if d.len() == 0 || !all_digits(d) {
        None
    } else if digits_value(d, d.len() as int) > max {
        None
    } else {
        Some(digits_value(d, d.len() as int))
    }
}

/// A number written in digits is not negative.
proof fn lemma_digits_nonneg(d: Seq<u8>, n: int)
    requires
        0 <= n <= d.len(),
        forall|i: int| 0 <= i < n ==> is_digit(#[trigger] d[i]),
    ensures
        digits_value(d, n) >= 0,
    decreases n,
{
    if n > 0 {
        lemma_digits_nonneg(d, n - 1);
        let v = digits_value(d, n - 1);
        assert(v * 10 >= 0) by (nonlinear_arith)
            requires
                v >= 0,
        ;
    }
}

/// Reading more digits never makes the number smaller.
proof fn lemma_digits_grow(d: Seq<u8>, m: int, n: int)
    requires
        0 <= m <= n <= d.len(),
        forall|i: int| 0 <= i < n ==> is_digit(#[trigger] d[i]),
    ensures
        digits_value(d, m) <= digits_value(d, n),
    decreases n - m,
{
    if m < n {
        lemma_digits_grow(d, m, n - 1);
        lemma_digits_nonneg(d, n - 1);
        let v = digits_value(d, n - 1);
        assert(v * 10 >= v) by (nonlinear_arith)
            requires
                v >= 0,
        ;
    }
}

/// The number `t` writes, when it is one not above `max`.
fn parse_decimal(t: &Vec<u8>, max: u64) -> (r: Option<u64>)
    ensures
        r matches Some(v) ==> decimal(t@, max as int) == Some(v as int),
        r is None ==> decimal(t@, max as int) is None,
{
    let ghost d = unsigned_part(t@);
    let start: usize = if t.len() > 0 && t[0] == 43 { 1 } else { 0 };
    if start >= t.len() {
        return None;
    }
    assert(d =~= t@.subrange(start as int, t@.len() as int));
    let mut v: u64 = 0;
    let mut k: usize = start;
    while k < t.len()
        invariant
            start <= k <= t@.len(),
            d == unsigned_part(t@),
            d =~= t@.subrange(start as int, t@.len() as int),
            v as int == digits_value(d, k - start),
            v <= max,
            forall|i: int| 0 <= i < k - start ==> is_digit(#[trigger] d[i]),
        decreases t@.len() - k,
    {
        let c = t[k];
        assert(d[k - start] == c);
        if c < 48 || c > 57 {
            assert(!is_digit(d[k - start]));
            return None;
        }
        let dd = (c - 48) as u64;
        if max < dd || v > (max - dd) / 10 {
            proof {
                let n = k - start + 1;
                assert(digits_value(d, n) == v * 10 + dd);
                assert(v * 10 + dd > max) by (nonlinear_arith)
                    requires
                        max < dd || v > (max - dd) / 10,
                        v >= 0,
                ;
                if all_digits(d) {
                    lemma_digits_grow(d, n, d.len() as int);
                    assert(digits_value(d, d.len() as int) > max);
                }
            }
            return None;
        }
        proof {
            assert(v * 10 + dd <= max) by (nonlinear_arith)
                requires
                    max >= dd,
                    v <= (max - dd) / 10,
                    v >= 0,
            ;
        }
        v = v * 10 + dd;
        k = k + 1;
    }
    Some(v)
}

/// The keywords of a `go` command with a value, in field order, then
/// `infinite`: `depth`, `movetime`, `wtime`, `btime`, `winc`, `binc`,
/// `movestogo`.
pub open spec fn keyword(k: int) -> Seq<u8> {
    if k == 0 {
        seq![100u8, 101, 112, 116, 104]
    } else if k == 1 {
        seq![109u8, 111, 118, 101, 116, 105, 109, 101]
    } else if k == 2 {
        seq![119u8, 116, 105, 109, 101]
    } else if k == 3 {
        seq![98u8, 116, 105, 109, 101]
    } else if k == 4 {
        seq![119u8, 105, 110, 99]
    } else if k == 5 {
        seq![98u8, 105, 110, 99]
    } else if k == 6 {
        seq![109u8, 111, 118, 101, 115, 116, 111, 103, 111]
    } else {
        seq![105u8, 110, 102, 105, 110, 105, 116, 101]
    }
}

/// Which keyword a token is: 0 to 7 as in `keyword`, 8 for none.
pub open spec fn keyword_of(t: Seq<u8>) -> int {
    if t == keyword(0) {
        0
    } else if t == keyword(1) {
        1
    } else if t == keyword(2) {
        2
    } else if t == keyword(3) {
        3
    } else if t == keyword(4) {
        4
    } else if t == keyword(5) {
        5
    } else if t == keyword(6) {
        6
    } else if t == keyword(7) {
        7
    } else {
        8
    }
}

/// A number of at most `max`, or the old value when `tok` is none.
pub open spec fn number_or<T>(tok: Seq<u8>, max: int, old: Option<T>, conv: spec_fn(int) -> T) -> Option<T> {
    match decimal(tok, max) {
        Some(v) => Some(conv(v)),
        None => old,
    }
}

/// The limits after keyword `k` (0 to 6) with the value token `tok`; a
/// value that does not parse leaves the field as it was.
pub open spec fn with_value(p: UCISearchParams, k: int, tok: Seq<u8>) -> UCISearchParams {
    let to64 = |v: int| v as u64;
    UCISearchParams {
        depth: if k == 0 { number_or(tok, u8::MAX as int, p.depth, |v: int| v as u8) } else { p.depth },
        movetime: if k == 1 { number_or(tok, u64::MAX as int, p.movetime, to64) } else { p.movetime },
        wtime: if k == 2 { number_or(tok, u64::MAX as int, p.wtime, to64) } else { p.wtime },
        btime: if k == 3 { number_or(tok, u64::MAX as int, p.btime, to64) } else { p.btime },
        winc: if k == 4 { number_or(tok, u64::MAX as int, p.winc, to64) } else { p.winc },
        binc: if k == 5 { number_or(tok, u64::MAX as int, p.binc, to64) } else { p.binc },
        movestogo: if k == 6 { number_or(tok, u32::MAX as int, p.movestogo, |v: int| v as u32) } else { p.movestogo },
        infinite: p.infinite,
    }
}

/// The limits a `go` command's tokens from `i` on give, starting from `p`:
/// a keyword with a value takes the next token as its value, `infinite`
/// stands alone, any other token is skipped.
pub open spec fn go_params(toks: Seq<Seq<u8>>, i: int, p: UCISearchParams) -> UCISearchParams
    decreases toks.len() - i,
{
    if i >= toks.len() || i < 0 {
        p
    } else {
        let k = keyword_of(toks[i]);
        if k < 7 && i + 1 < toks.len() {
            go_params(toks, i + 2, with_value(p, k, toks[i + 1]))
        } else if k == 7 {
            go_params(toks, i + 1, UCISearchParams { infinite: true, ..p })
        } else {
            go_params(toks, i + 1, p)
        }
    }
}

/// The limits with nothing given.
pub open spec fn no_limits() -> UCISearchParams {
    UCISearchParams {
        depth: None,
        movetime: None,
        wtime: None,
        btime: None,
        winc: None,
        binc: None,
        movestogo: None,
        infinite: false,
    }
}

/// Whether `t` holds exactly the bytes of `w`.
fn same_bytes(t: &Vec<u8>, w: &[u8]) -> (r: bool)
    ensures
        r == (t@ == w@),
{
    if t.len() != w.len() {
        return false;
    }
    let mut i: usize = 0;
    while i < t.len()
        invariant
            t@.len() == w@.len(),
            i <= t@.len(),
            forall|j: int| 0 <= j < i ==> t@[j] == w@[j],
        decreases t@.len() - i,
    {
        if t[i] != w[i] {
            return false;
        }
        i = i + 1;
    }
    assert(t@ =~= w@);
    true
}

/// Which `go` keyword the token is.
fn find_keyword(t: &Vec<u8>) -> (r: u8)
    ensures
        r as int == keyword_of(t@),
{
    let w0: [u8; 5] = [100u8, 101, 112, 116, 104];
    let is0 = same_bytes(t, w0.as_slice());
    assert(w0@ =~= keyword(0));
    if is0 {
        return 0;
    }
    let w1: [u8; 8] = [109u8, 111, 118, 101, 116, 105, 109, 101];
    let is1 = same_bytes(t, w1.as_slice());
    assert(w1@ =~= keyword(1));
    if is1 {
        return 1;
    }
    let w2: [u8; 5] = [119u8, 116, 105, 109, 101];
    let is2 = same_bytes(t, w2.as_slice());
    assert(w2@ =~= keyword(2));
    if is2 {
        return 2;
    }
    let w3: [u8; 5] = [98u8, 116, 105, 109, 101];
    let is3 = same_bytes(t, w3.as_slice());
    assert(w3@ =~= keyword(3));
    if is3 {
        return 3;
    }
    let w4: [u8; 4] = [119u8, 105, 110, 99];
    let is4 = same_bytes(t, w4.as_slice());
    assert(w4@ =~= keyword(4));
    if is4 {
        return 4;
    }
    let w5: [u8; 4] = [98u8, 105, 110, 99];
    let is5 = same_bytes(t, w5.as_slice());
    assert(w5@ =~= keyword(5));
    if is5 {
        return 5;
    }
    let w6: [u8; 9] = [109u8, 111, 118, 101, 115, 116, 111, 103, 111];
    let is6 = same_bytes(t, w6.as_slice());
    assert(w6@ =~= keyword(6));
    if is6 {
        return 6;
    }
    let w7: [u8; 8] = [105u8, 110, 102, 105, 110, 105, 116, 101];
    let is7 = same_bytes(t, w7.as_slice());
    assert(w7@ =~= keyword(7));
    if is7 {
        return 7;
    }
    8
}

/// The limits of a UCI `go` command line: `depth`, `movetime`, `wtime`,
/// `btime`, `winc`, `binc` and `movestogo` take the next token as a number
/// (a token that is not one leaves the field unset), `infinite` sets its
/// flag, and anything else is skipped.
pub fn parse_go_command(cmd: &str) -> (r: UCISearchParams)
    ensures
        r == go_params(tokens(cmd.spec_bytes(), 0, seq![]), 0, no_limits()),
{
    let toks = split_tokens(cmd.as_bytes());
    let ghost ts = toks@.map_values(|t: Vec<u8>| t@);
    let mut params = UCISearchParams::new();
    let mut i: usize = 0;
    while i < toks.len()
        invariant
            ts == toks@.map_values(|t: Vec<u8>| t@),
            i <= toks@.len(),
            go_params(ts, i as int, params) == go_params(ts, 0, no_limits()),
        decreases toks@.len() - i,
    {
        let k = find_keyword(&toks[i]);
        assert(ts[i as int] == toks@[i as int]@);
        if k < 7 && i + 1 < toks.len() {
            let v = &toks[i + 1];
            assert(ts[i + 1] == v@);
            let ghost before = params;
            if k == 0 {
                if let Some(d) = parse_decimal(v, 255) {
                    params.depth = Some(d as u8);
                }
            } else if k == 1 {
                if let Some(d) = parse_decimal(v, u64::MAX) {
                    params.movetime = Some(d);
                }
            } else if k == 2 {
                if let Some(d) = parse_decimal(v, u64::MAX) {
                    params.wtime = Some(d);
                }
            } else if k == 3 {
                if let Some(d) = parse_decimal(v, u64::MAX) {
                    params.btime = Some(d);
                }
            } else if k == 4 {
                if let Some(d) = parse_decimal(v, u64::MAX) {
                    params.winc = Some(d);
                }
            } else if k == 5 {
                if let Some(d) = parse_decimal(v, u64::MAX) {
                    params.binc = Some(d);
                }
            } else {
                if let Some(d) = parse_decimal(v, u32::MAX as u64) {
                    params.movestogo = Some(d as u32);
                }
            }
            assert(params == with_value(before, k as int, ts[i + 1]));
            i = i + 2;
        } else if k == 7 {
            params.infinite = true;
            i = i + 1;
        } else {
            i = i + 1;
        }
    }
    params
}

} // verus!
