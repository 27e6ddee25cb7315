//! Text for moves and scores: zone names, the `zone/square` move codec,
//! and the score form `W<k>` / `L<k>` / `D0` / signed decimal.

use vstd::prelude::*;
use vstd::string::{StrSliceExecFns, StringExecFns};
use crate::board::Move;
use crate::tables::{OUTCOME_LOSS, OUTCOME_WIN};

verus! {

/// The lowercase name of zone `z`.
pub open spec fn zone_name(z: int) -> Seq<char> {
    if z == 0 {
        "nw"@
    } else if z == 1 {
        "n"@
    } else if z == 2 {
        "ne"@
    } else if z == 3 {
        "w"@
    } else if z == 4 {
        "c"@
    } else if z == 5 {
        "e"@
    } else if z == 6 {
        "sw"@
    } else if z == 7 {
        "s"@
    } else {
        "se"@
    }
}

/// The zone whose lowercase name a token is, if any.
pub open spec fn zone_index(t: Seq<char>) -> Option<u64> {
    if t == zone_name(0) {
        Some(0u64)
    } else if t == zone_name(1) {
        Some(1u64)
    } else if t == zone_name(2) {
        Some(2u64)
    } else if t == zone_name(3) {
        Some(3u64)
    } else if t == zone_name(4) {
        Some(4u64)
    } else if t == zone_name(5) {
        Some(5u64)
    } else if t == zone_name(6) {
        Some(6u64)
    } else if t == zone_name(7) {
        Some(7u64)
    } else if t == zone_name(8) {
        Some(8u64)
    } else {
        None
    }
}

/// Brings the views of the nine zone names into scope.
pub proof fn reveal_zone_names()
    ensures
        zone_name(0) == seq!['n', 'w'],
        zone_name(1) == seq!['n'],
        zone_name(2) == seq!['n', 'e'],
        zone_name(3) == seq!['w'],
        zone_name(4) == seq!['c'],
        zone_name(5) == seq!['e'],
        zone_name(6) == seq!['s', 'w'],
        zone_name(7) == seq!['s'],
        zone_name(8) == seq!['s', 'e'],
{
    reveal_strlit("nw");
    reveal_strlit("n");
    reveal_strlit("ne");
    reveal_strlit("w");
    reveal_strlit("c");
    reveal_strlit("e");
    reveal_strlit("sw");
    reveal_strlit("s");
    reveal_strlit("se");
    assert(zone_name(0) =~= seq!['n', 'w']);
    assert(zone_name(1) =~= seq!['n']);
    assert(zone_name(2) =~= seq!['n', 'e']);
    assert(zone_name(3) =~= seq!['w']);
    assert(zone_name(4) =~= seq!['c']);
    assert(zone_name(5) =~= seq!['e']);
    assert(zone_name(6) =~= seq!['s', 'w']);
    assert(zone_name(7) =~= seq!['s']);
    assert(zone_name(8) =~= seq!['s', 'e']);
}

/// A token that matches some zone name, read back through `zone_name`,
/// is that very token; and every name is at most two characters long.
pub proof fn lemma_zone_index_inverse(t: Seq<char>)
    ensures
        zone_index(t) is Some ==> zone_name(zone_index(t)->Some_0 as int) == t && zone_index(
            t,
        )->Some_0 < 9,
        t.len() != 1 && t.len() != 2 ==> zone_index(t) is None,
{
    reveal_zone_names();
}

/// The lowercase name of zone `z`.
pub fn zone_name_of(z: u64) -> (r: &'static str)
    requires
        z < 9,
    ensures
        r@ == zone_name(z as int),
{
    if z == 0 {
        "nw"
    } else if z == 1 {
        "n"
    } else if z == 2 {
        "ne"
    } else if z == 3 {
        "w"
    } else if z == 4 {
        "c"
    } else if z == 5 {
        "e"
    } else if z == 6 {
        "sw"
    } else if z == 7 {
        "s"
    } else {
        "se"
    }
}

/// The text of a move: the zone name, a slash, the square name.
pub open spec fn move_str_spec(mv: u64) -> Seq<char> {
    zone_name((mv / 9) as int) + "/"@ + zone_name((mv % 9) as int)
}

/// Writes a move as `zone/square`.
pub fn move_string(mv: Move) -> (r: String)
    requires
        mv < 81,
    ensures
        r@ == move_str_spec(mv),
{
    let mut s = String::new();
    s.append(zone_name_of(mv / 9));
    s.append("/");
    s.append(zone_name_of(mv % 9));
    proof {
        assert(s@ =~= move_str_spec(mv));
    }
    s
}

/// Position `p` holds the only slash of `s`.
pub open spec fn one_slash_at(s: Seq<char>, p: int) -> bool {
    &&& 0 <= p < s.len()
    &&& s[p] == '/'
    &&& forall|q: int| 0 <= q < s.len() && q != p ==> s[q] != '/'
}

/// What a move token parses to: with exactly one slash splitting two zone
/// names, the move `9 * zone + square`; anything else is rejected.
pub open spec fn parse_move(s: Seq<char>) -> Option<u64> {
    if exists|p: int| one_slash_at(s, p) {
        let p = choose|p: int| one_slash_at(s, p);
        if zone_index(s.take(p)) is Some && zone_index(s.skip(p + 1)) is Some {
            Some((9 * zone_index(s.take(p))->Some_0 + zone_index(s.skip(p + 1))->Some_0) as u64)
        } else {
            None
        }
    } else {
        None
    }
}

/// A string longer than five characters never parses as a move: one of
/// the two tokens around any lone slash would be longer than a name.
proof fn lemma_parse_move_long(s: Seq<char>)
    requires
        s.len() > 5,
    ensures
        parse_move(s) is None,
{
    if exists|p: int| one_slash_at(s, p) {
        let p = choose|p: int| one_slash_at(s, p);
        if p > 2 {
            lemma_zone_index_inverse(s.take(p));
        } else {
            lemma_zone_index_inverse(s.skip(p + 1));
        }
    }
}

/// What a one-character token can name.
pub proof fn lemma_zone_index_one(c0: char)
    ensures
        zone_index(seq![c0]) == (if c0 == 'n' {
            Some(1u64)
        } else if c0 == 'w' {
            Some(3u64)
        } else if c0 == 'c' {
            Some(4u64)
        } else if c0 == 'e' {
            Some(5u64)
        } else if c0 == 's' {
            Some(7u64)
        } else {
            None
        }),
{
    reveal_zone_names();
    let t = seq![c0];
    assert(t.len() == 1);
    assert(t[0] == c0);
    if c0 == 'n' {
        assert(t =~= zone_name(1));
    } else if c0 == 'w' {
        assert(t =~= zone_name(3));
    } else if c0 == 'c' {
        assert(t =~= zone_name(4));
    } else if c0 == 'e' {
        assert(t =~= zone_name(5));
    } else if c0 == 's' {
        assert(t =~= zone_name(7));
    } else {
        assert(t != zone_name(1) && t != zone_name(3) && t != zone_name(4) && t != zone_name(5)
            && t != zone_name(7));
    }
}

/// What a two-character token can name.
pub proof fn lemma_zone_index_two(c0: char, c1: char)
    ensures
        zone_index(seq![c0, c1]) == (if c0 == 'n' && c1 == 'w' {
            Some(0u64)
        } else if c0 == 'n' && c1 == 'e' {
            Some(2u64)
        } else if c0 == 's' && c1 == 'w' {
            Some(6u64)
        } else if c0 == 's' && c1 == 'e' {
            Some(8u64)
        } else {
            None
        }),
{
    reveal_zone_names();
    let t = seq![c0, c1];
    assert(t.len() == 2);
    assert(t[0] == c0 && t[1] == c1);
    if c0 == 'n' && c1 == 'w' {
        assert(t =~= zone_name(0));
    } else if c0 == 'n' && c1 == 'e' {
        assert(t =~= zone_name(2));
    } else if c0 == 's' && c1 == 'w' {
        assert(t =~= zone_name(6));
    } else if c0 == 's' && c1 == 'e' {
        assert(t =~= zone_name(8));
    } else {
        assert(t != zone_name(0) && t != zone_name(2) && t != zone_name(6) && t != zone_name(8));
    }
}

/// The zone whose name stands between `from` and `to`, if any.
fn zone_token_index(s: &str, from: usize, to: usize) -> (r: Option<u64>)
    requires
        from <= to,
        to <= s@.len(),
    ensures
        r == zone_index(s@.subrange(from as int, to as int)),
{
    proof {
        reveal_zone_names();
    }
    let ghost t = s@.subrange(from as int, to as int);
    if to - from == 1 {
        let c0 = s.get_char(from);
        proof {
            assert(t =~= seq![c0]);
            lemma_zone_index_one(c0);
        }
        if c0 == 'n' {
            Some(1)
        } else if c0 == 'w' {
            Some(3)
        } else if c0 == 'c' {
            Some(4)
        } else if c0 == 'e' {
            Some(5)
        } else if c0 == 's' {
            Some(7)
        } else {
            None
        }
    } else if to - from == 2 {
        let c0 = s.get_char(from);
        let c1 = s.get_char(from + 1);
        proof {
            assert(t =~= seq![c0, c1]);
            lemma_zone_index_two(c0, c1);
        }
        if c0 == 'n' && c1 == 'w' {
            Some(0)
        } else if c0 == 'n' && c1 == 'e' {
            Some(2)
        } else if c0 == 's' && c1 == 'w' {
            Some(6)
        } else if c0 == 's' && c1 == 'e' {
            Some(8)
        } else {
            None
        }
    } else {
        proof {
            lemma_zone_index_inverse(t);
        }
        None
    }
}

/// How many slashes stand below position `k`.
pub open spec fn slash_count(s: Seq<char>, k: int) -> int
    decreases k,
{
    if k <= 0 {
        0
    } else {
        slash_count(s, k - 1) + (if s[k - 1] == '/' {
            1int
        } else {
            0int
        })
    }
}

/// Reads a move back from `zone/square`; any other shape is rejected.
pub fn move_from_string(move_text: &str) -> (r: Option<Move>)
    ensures
        r == parse_move(move_text@),
        r is Some ==> r->Some_0 < 81,
{
    let n = move_text.unicode_len();
    if n > 5 {
        proof {
            lemma_parse_move_long(move_text@);
        }
        return None;
    }
    let mut i: usize = 0;
    let mut cnt: usize = 0;
    let mut pos: usize = 0;
    let mut pos2: usize = 0;
    while i < n
        invariant
            i <= n,
            cnt <= i,
            n == move_text@.len(),
            cnt == 0 ==> (forall|q: int| 0 <= q < i ==> move_text@[q] != '/'),
            cnt == 1 ==> (pos < i && move_text@[pos as int] == '/' && (forall|q: int|
                0 <= q < i && q != pos ==> move_text@[q] != '/')),
            cnt >= 2 ==> (pos < i && pos2 < i && pos != pos2 && move_text@[pos as int] == '/'
                && move_text@[pos2 as int] == '/'),
        decreases n - i,
    {
        if move_text.get_char(i) == '/' {
            if cnt == 0 {
                pos = i;
            } else if cnt == 1 {
                pos2 = i;
            }
            cnt = cnt + 1;
        }
        i = i + 1;
    }
    if cnt != 1 {
        proof {
            if cnt == 0 {
                assert forall|p: int| !one_slash_at(move_text@, p) by {}
            } else {
                assert forall|p: int| !one_slash_at(move_text@, p) by {
                    if one_slash_at(move_text@, p) {
                        if p != pos {
                            assert(move_text@[pos as int] != '/');
                        } else {
                            assert(move_text@[pos2 as int] != '/');
                        }
                    }
                }
            }
        }
        return None;
    }
    proof {
        assert(one_slash_at(move_text@, pos as int));
        let p = choose|p: int| one_slash_at(move_text@, p);
        if p != pos {
            assert(move_text@[p] != '/');
        }
        assert(p == pos);
    }
    let zt = zone_token_index(move_text, 0, pos);
    let st = zone_token_index(move_text, pos + 1, n);
    proof {
        assert(move_text@.subrange(0, pos as int) =~= move_text@.take(pos as int));
        assert(move_text@.subrange(pos as int + 1, n as int) =~= move_text@.skip(pos as int + 1));
        lemma_zone_index_inverse(move_text@.take(pos as int));
        lemma_zone_index_inverse(move_text@.skip(pos as int + 1));
    }
    if let (Some(z), Some(q)) = (zt, st) {
        Some(9 * z + q)
    } else {
        None
    }
}

/// The decimal digits of `n`, most significant first.
pub open spec fn dec_digits(n: int) -> Seq<char>
    decreases n,
{
    if n <= 9 {
        seq![digit_char(n)]
    } else {
        dec_digits(n / 10).push(digit_char(n % 10))
    }
}

/// The character of the decimal digit `d`.
pub open spec fn digit_char(d: int) -> char {
    if d == 0 {
        '0'
    } else if d == 1 {
        '1'
    } else if d == 2 {
        '2'
    } else if d == 3 {
        '3'
    } else if d == 4 {
        '4'
    } else if d == 5 {
        '5'
    } else if d == 6 {
        '6'
    } else if d == 7 {
        '7'
    } else if d == 8 {
        '8'
    } else {
        '9'
    }
}

/// Appends the decimal digits of `v`.
fn push_decimal(out: &mut String, v: u32)
    ensures
        final(out)@ == old(out)@ + dec_digits(v as int),
    decreases v,
{
    if v >= 10 {
        push_decimal(out, v / 10);
    }
    let d = v % 10;
    let ghost before = out@;
    if d == 0 {
        out.append("0");
    } else if d == 1 {
        out.append("1");
    } else if d == 2 {
        out.append("2");
    } else if d == 3 {
        out.append("3");
    } else if d == 4 {
        out.append("4");
    } else if d == 5 {
        out.append("5");
    } else if d == 6 {
        out.append("6");
    } else if d == 7 {
        out.append("7");
    } else if d == 8 {
        out.append("8");
    } else {
        out.append("9");
    }
    proof {
        reveal_strlit("0");
        reveal_strlit("1");
        reveal_strlit("2");
        reveal_strlit("3");
        reveal_strlit("4");
        reveal_strlit("5");
        reveal_strlit("6");
        reveal_strlit("7");
        reveal_strlit("8");
        reveal_strlit("9");
        assert(out@ =~= before + seq![digit_char(d as int)]);
        if v >= 10 {
            assert(out@ =~= old(out)@ + dec_digits(v as int));
        } else {
            assert(out@ =~= old(out)@ + dec_digits(v as int));
        }
    }
}

/// The text of a score `eval` at search depth `maxd`: a forced loss or
/// win with its distance, `D0` for a drawn zero, otherwise the signed
/// decimal.
pub open spec fn eval_str_spec(eval: int, maxd: int) -> Seq<char> {
    if eval <= -1000000 + maxd {
        "L"@ + dec_digits(eval + 1000000)
    } else if eval >= 1000000 - maxd {
        "W"@ + dec_digits(1000000 - eval)
    } else if eval == 0 {
        "D0"@
    } else if eval > 0 {
        "+"@ + dec_digits(eval)
    } else {
        "-"@ + dec_digits(-eval)
    }
}

/// Writes a score for the driver.
pub fn eval_string(eval: i32, max_depth: usize) -> (r: String)
    requires
        -1000000 <= eval <= 1000000,
        max_depth <= 1000000,
    ensures
        r@ == eval_str_spec(eval as int, max_depth as int),
{
    let mut s = String::new();
    if eval <= OUTCOME_LOSS + (max_depth as i32) {
        s.append("L");
        push_decimal(&mut s, (eval - OUTCOME_LOSS) as u32);
    } else if eval >= OUTCOME_WIN - (max_depth as i32) {
        s.append("W");
        push_decimal(&mut s, (OUTCOME_WIN - eval) as u32);
    } else if eval == 0 {
        s.append("D0");
    } else if eval > 0 {
        s.append("+");
        push_decimal(&mut s, eval as u32);
    } else {
        s.append("-");
        push_decimal(&mut s, (-eval) as u32);
    }
    proof {
        assert(s@ =~= eval_str_spec(eval as int, max_depth as int));
    }
    s
}

} // verus!
