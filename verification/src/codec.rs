//! The compact board codec: nine rows of nine cells in the fixed
//! serialisation order, runs of empty cells compressed to a digit, rows
//! joined by slashes, then a space and the next-zone token.

use vstd::prelude::*;
use vstd::string::{StrSliceExecFns, StringExecFns};
use crate::board::{Board, ZONE_ANY, o_bit, wf, x_bit, zone_field};
use crate::bits::{lemma_window_eq, lemma_word_eq};
use crate::text::{digit_char, reveal_zone_names, zone_index, zone_name, zone_name_of};

verus! {

/// The cell shown at row `r`, column `k` of the serialised text: rows walk
/// three zones side by side, three cells of each.
pub open spec fn ser_cell(r: int, k: int) -> u64 {
    (27 * (r / 3) + 3 * (r % 3) + 9 * (k / 3) + (k % 3)) as u64
}

/// The character of one cell.
pub open spec fn cell_char(b: Board, c: u64) -> char {
    if x_bit(b, c) {
        'x'
    } else if o_bit(b, c) {
        'o'
    } else {
        '.'
    }
}

/// The nine characters of row `r`, uncompressed.
pub open spec fn row_chars(b: Board, r: int) -> Seq<char> {
    Seq::new(9, |k: int| cell_char(b, ser_cell(r, k)))
}

/// Run-length compression of the empty cells of a row, from position `i`
/// with `run` empty cells already pending: a maximal run becomes its
/// length's digit.
pub open spec fn rle(s: Seq<char>, i: int, run: int) -> Seq<char>
    decreases s.len() - i,
{
    if i >= s.len() {
        if run > 0 {
            seq![digit_char(run)]
        } else {
            Seq::empty()
        }
    } else if s[i] == '.' {
        rle(s, i + 1, run + 1)
    } else if run > 0 {
        seq![digit_char(run), s[i]] + rle(s, i + 1, 0)
    } else {
        seq![s[i]] + rle(s, i + 1, 0)
    }
}

/// A row, compressed.
pub open spec fn compress(s: Seq<char>) -> Seq<char> {
    rle(s, 0, 0)
}

/// The first `n` rows, compressed and joined by slashes.
pub open spec fn encode_rows_upto(b: Board, n: int) -> Seq<char>
    decreases n,
{
    if n <= 1 {
        compress(row_chars(b, 0))
    } else {
        encode_rows_upto(b, n - 1) + seq!['/'] + compress(row_chars(b, n - 1))
    }
}

/// The next-zone token: a zone name, or `any`.
pub open spec fn zone_token(b: Board) -> Seq<char> {
    if zone_field(b) == ZONE_ANY {
        "any"@
    } else {
        zone_name(zone_field(b) as int)
    }
}

/// The full text of a board.
pub open spec fn board_str_spec(b: Board) -> Seq<char> {
    encode_rows_upto(b, 9) + seq![' '] + zone_token(b)
}

/// The character of one cell.
fn cell_char_of(b: &Board, c: u64) -> (r: char)
    requires
        c < 81,
    ensures
        r == cell_char(*b, c),
{
    if c > 62 {
        if (b.share >> (c - 63)) & 1 == 1 {
            'x'
        } else if (b.share >> (c - 45)) & 1 == 1 {
            'o'
        } else {
            '.'
        }
    } else if (b.us >> c) & 1 == 1 {
        'x'
    } else if (b.them >> c) & 1 == 1 {
        'o'
    } else {
        '.'
    }
}

/// The cell at row `r`, column `k` of the text.
fn ser_cell_of(r: u64, k: u64) -> (c: u64)
    requires
        r < 9,
        k < 9,
    ensures
        c == ser_cell(r as int, k as int),
        c < 81,
{
    27 * (r / 3) + 3 * (r % 3) + 9 * (k / 3) + (k % 3)
}

/// Appends the digit of a run length.
fn push_digit(out: &mut String, d: u64)
    requires
        1 <= d <= 9,
    ensures
        final(out)@ == old(out)@ + seq![digit_char(d as int)],
{
    let ghost before = out@;
    if d == 1 {
        out.append("1");
    } else if d == 2 {
        out.append("2");
    } else if d == 3 {
        out.append("3");
    } else if d == 4 {
        out.append("4");
    } else if d == 5 {
        out.append("5");
    } else if d == 6 {
        out.append("6");
    } else if d == 7 {
        out.append("7");
    } else if d == 8 {
        out.append("8");
    } else {
        out.append("9");
    }
    proof {
        reveal_strlit("1");
        reveal_strlit("2");
        reveal_strlit("3");
        reveal_strlit("4");
        reveal_strlit("5");
        reveal_strlit("6");
        reveal_strlit("7");
        reveal_strlit("8");
        reveal_strlit("9");
        assert(out@ =~= before + seq![digit_char(d as int)]);
    }
}

/// Appends one row, compressed.
fn push_row(out: &mut String, b: &Board, r: u64)
    requires
        r < 9,
    ensures
        final(out)@ == old(out)@ + compress(row_chars(*b, r as int)),
{
    let ghost row = row_chars(*b, r as int);
    let mut k: u64 = 0;
    let mut run: u64 = 0;
    while k < 9
        invariant
            k <= 9,
            run <= k,
            r < 9,
            row == row_chars(*b, r as int),
            old(out)@ + compress(row) == out@ + rle(row, k as int, run as int),
        decreases 9 - k,
    {
        let c = cell_char_of(b, ser_cell_of(r, k));
        proof {
            assert(row[k as int] == c);
        }
        if c == '.' {
            run = run + 1;
        } else {
            if run > 0 {
                push_digit(out, run);
                run = 0;
            }
            let ghost before = out@;
            if c == 'x' {
                out.append("x");
            } else {
                out.append("o");
            }
            proof {
                reveal_strlit("x");
                reveal_strlit("o");
                assert(c == 'x' || c == 'o');
                assert(out@ =~= before + seq![c]);
            }
        }
        k = k + 1;
        proof {
            assert(old(out)@ + compress(row) =~= out@ + rle(row, k as int, run as int));
        }
    }
    if run > 0 {
        push_digit(out, run);
    }
    proof {
        assert(final(out)@ =~= old(out)@ + compress(row));
    }
}

/// Writes a board as its compact text.
pub fn board_string(board: Board) -> (r: String)
    requires
        zone_field(board) <= 9,
    ensures
        r@ == board_str_spec(board),
{
    let mut s = String::new();
    push_row(&mut s, &board, 0);
    let mut rw: u64 = 1;
    while rw < 9
        invariant
            1 <= rw <= 9,
            s@ == encode_rows_upto(board, rw as int),
        decreases 9 - rw,
    {
        s.append("/");
        push_row(&mut s, &board, rw);
        proof {
            reveal_strlit("/");
            assert(s@ =~= encode_rows_upto(board, rw as int + 1));
        }
        rw = rw + 1;
    }
    s.append(" ");
    let zf = (board.share >> 54) & 15;
    if zf == 9 {
        s.append("any");
    } else {
        s.append(zone_name_of(zf));
    }
    proof {
        reveal_strlit(" ");
        assert(s@ =~= board_str_spec(board));
    }
    s
}

/// The uppercase character of one cell, for the drawn board.
pub open spec fn pretty_cell(b: Board, c: u64) -> char {
    if x_bit(b, c) {
        'X'
    } else if o_bit(b, c) {
        'O'
    } else {
        '.'
    }
}

/// Column `p` of a drawn row: nine cells with a bar after each zone.
pub open spec fn pretty_col(p: int) -> int {
    if p < 3 {
        p
    } else if p < 7 {
        p - 1
    } else {
        p - 2
    }
}

/// One drawn row of the small grids: eleven characters.
pub open spec fn pretty_row(b: Board, r: int) -> Seq<char> {
    Seq::new(
        11,
        |p: int|
            if p == 3 || p == 7 {
                '|'
            } else {
                pretty_cell(b, ser_cell(r, pretty_col(p)))
            },
    )
}

/// The owner mark of one meta cell.
pub open spec fn pretty_meta(b: Board, z: u64) -> char {
    if crate::board::meta_x(b, z) {
        'X'
    } else if crate::board::meta_o(b, z) {
        'O'
    } else {
        '.'
    }
}

/// One drawn row of the meta grid.
pub open spec fn pretty_big_row(b: Board, i: int) -> Seq<char> {
    Seq::new(3, |t: int| pretty_meta(b, (3 * i + t) as u64))
}

/// The uppercase name of zone `z`.
pub open spec fn zone_name_upper(z: int) -> Seq<char> {
    if z == 0 {
        "NW"@
    } else if z == 1 {
        "N"@
    } else if z == 2 {
        "NE"@
    } else if z == 3 {
        "W"@
    } else if z == 4 {
        "C"@
    } else if z == 5 {
        "E"@
    } else if z == 6 {
        "SW"@
    } else if z == 7 {
        "S"@
    } else {
        "SE"@
    }
}

/// Line `li` of the drawn board: rulers around each band of rows, then
/// the meta grid, then the next-zone line.
pub open spec fn pretty_line(b: Board, li: int) -> Seq<char> {
    if li == 0 || li == 4 || li == 8 || li == 12 {
        "---+---+---"@
    } else if li < 13 {
        pretty_row(b, li - 1 - li / 4)
    } else if li < 16 {
        pretty_big_row(b, li - 13)
    } else {
        "ZONE: "@ + (if zone_field(b) == ZONE_ANY {
            "ANY"@
        } else {
            zone_name_upper(zone_field(b) as int)
        })
    }
}

/// The uppercase character of one cell.
fn pretty_cell_of(b: &Board, c: u64) -> (r: char)
    requires
        c < 81,
    ensures
        r == pretty_cell(*b, c),
{
    if c > 62 {
        if (b.share >> (c - 63)) & 1 == 1 {
            'X'
        } else if (b.share >> (c - 45)) & 1 == 1 {
            'O'
        } else {
            '.'
        }
    } else if (b.us >> c) & 1 == 1 {
        'X'
    } else if (b.them >> c) & 1 == 1 {
        'O'
    } else {
        '.'
    }
}

/// Appends one character of the drawn board.
fn push_pretty_char(out: &mut String, c: char)
    requires
        c == 'X' || c == 'O' || c == '.' || c == '|',
    ensures
        final(out)@ == old(out)@ + seq![c],
{
    let ghost before = out@;
    if c == 'X' {
        out.append("X");
    } else if c == 'O' {
        out.append("O");
    } else if c == '.' {
        out.append(".");
    } else {
        out.append("|");
    }
    proof {
        reveal_strlit("X");
        reveal_strlit("O");
        reveal_strlit(".");
        reveal_strlit("|");
        assert(out@ =~= before + seq![c]);
    }
}

/// One drawn row of the small grids.
fn pretty_row_of(b: &Board, r: u64) -> (s: String)
    requires
        r < 9,
    ensures
        s@ == pretty_row(*b, r as int),
{
    let mut s = String::new();
    let mut p: u64 = 0;
    while p < 11
        invariant
            p <= 11,
            r < 9,
            s@ == pretty_row(*b, r as int).take(p as int),
        decreases 11 - p,
    {
        if p == 3 || p == 7 {
            push_pretty_char(&mut s, '|');
        } else {
            let k = if p < 3 {
                p
            } else if p < 7 {
                p - 1
            } else {
                p - 2
            };
            let c = pretty_cell_of(b, ser_cell_of(r, k));
            push_pretty_char(&mut s, c);
        }
        proof {
            assert(s@ =~= pretty_row(*b, r as int).take(p as int + 1));
        }
        p = p + 1;
    }
    proof {
        assert(pretty_row(*b, r as int).take(11) =~= pretty_row(*b, r as int));
    }
    s
}

/// One drawn row of the meta grid.
fn pretty_big_row_of(b: &Board, i: u64) -> (s: String)
    requires
        i < 3,
    ensures
        s@ == pretty_big_row(*b, i as int),
{
    let mut s = String::new();
    let mut t: u64 = 0;
    while t < 3
        invariant
            t <= 3,
            i < 3,
            s@ == pretty_big_row(*b, i as int).take(t as int),
        decreases 3 - t,
    {
        let z = 3 * i + t;
        let c = if ((b.share >> 36) >> z) & 1 == 1 {
            'X'
        } else if ((b.share >> 45) >> z) & 1 == 1 {
            'O'
        } else {
            '.'
        };
        proof {
            assert(c == pretty_meta(*b, z));
        }
        push_pretty_char(&mut s, c);
        proof {
            assert(s@ =~= pretty_big_row(*b, i as int).take(t as int + 1));
        }
        t = t + 1;
    }
    proof {
        assert(pretty_big_row(*b, i as int).take(3) =~= pretty_big_row(*b, i as int));
    }
    s
}

/// The uppercase name of zone `z`.
fn zone_name_upper_of(z: u64) -> (r: &'static str)
    requires
        z < 9,
    ensures
        r@ == zone_name_upper(z as int),
{
    if z == 0 {
        "NW"
    } else if z == 1 {
        "N"
    } else if z == 2 {
        "NE"
    } else if z == 3 {
        "W"
    } else if z == 4 {
        "C"
    } else if z == 5 {
        "E"
    } else if z == 6 {
        "SW"
    } else if z == 7 {
        "S"
    } else {
        "SE"
    }
}

/// Draws the board: the seventeen lines a driver prints for a human,
/// small grids with rulers, then the meta grid, then the next zone.
pub fn board_pretty(board: &Board) -> (r: Vec<String>)
    requires
        zone_field(*board) <= 9,
    ensures
        r@.len() == 17,
        forall|li: int| 0 <= li < 17 ==> (#[trigger] r@[li])@ == pretty_line(*board, li),
{
    let mut lines: Vec<String> = Vec::new();
    let mut li: u64 = 0;
    while li < 13
        invariant
            li <= 13,
            lines@.len() == li,
            forall|q: int| 0 <= q < li ==> (#[trigger] lines@[q])@ == pretty_line(*board, q),
        decreases 13 - li,
    {
        if li == 0 || li == 4 || li == 8 || li == 12 {
            let mut s = String::new();
            s.append("---+---+---");
            proof {
                assert(s@ =~= pretty_line(*board, li as int));
            }
            lines.push(s);
        } else {
            let row = pretty_row_of(board, li - 1 - li / 4);
            lines.push(row);
        }
        li = li + 1;
    }
    let mut i: u64 = 0;
    while i < 3
        invariant
            i <= 3,
            lines@.len() == 13 + i,
            forall|q: int| 0 <= q < 13 + i ==> (#[trigger] lines@[q])@ == pretty_line(*board, q),
        decreases 3 - i,
    {
        let row = pretty_big_row_of(board, i);
        lines.push(row);
        i = i + 1;
    }
    let mut z_line = String::new();
    z_line.append("ZONE: ");
    let zf = (board.share >> 54) & 15;
    if zf == 9 {
        z_line.append("ANY");
    } else {
        z_line.append(zone_name_upper_of(zf));
    }
    proof {
        assert(z_line@ =~= pretty_line(*board, 16));
    }
    lines.push(z_line);
    lines
}

/// The run length a digit stands for; other characters stand for
/// themselves.
pub open spec fn digit_val(c: char) -> int {
    if c == '1' {
        1
    } else if c == '2' {
        2
    } else if c == '3' {
        3
    } else if c == '4' {
        4
    } else if c == '5' {
        5
    } else if c == '6' {
        6
    } else if c == '7' {
        7
    } else if c == '8' {
        8
    } else if c == '9' {
        9
    } else {
        0
    }
}

/// `n` empty cells.
pub open spec fn dots(n: int) -> Seq<char> {
    Seq::new(n as nat, |i: int| '.')
}

/// What one character decompresses to.
pub open spec fn expand_char(c: char) -> Seq<char> {
    if digit_val(c) >= 1 {
        dots(digit_val(c))
    } else {
        seq![c]
    }
}

/// A text with every digit decompressed to its run of empty cells.
pub open spec fn expand(s: Seq<char>) -> Seq<char>
    decreases s.len(),
{
    if s.len() == 0 {
        Seq::empty()
    } else {
        expand_char(s[0]) + expand(s.drop_first())
    }
}

/// Decompression works left to right.
pub proof fn lemma_expand_push(s: Seq<char>, c: char)
    ensures
        expand(s.push(c)) == expand(s) + expand_char(c),
    decreases s.len(),
{
    if s.len() == 0 {
        assert(s.push(c).len() == 1);
        assert(s.push(c)[0] == c);
        assert(s.push(c).drop_first() =~= Seq::<char>::empty());
        assert(expand(s.push(c).drop_first()) == Seq::<char>::empty());
        assert(expand(s.push(c)) == expand_char(c) + Seq::<char>::empty());
        assert(expand(s.push(c)) =~= expand(s) + expand_char(c));
    } else {
        assert(s.push(c)[0] == s[0]);
        assert(s.push(c).drop_first() =~= s.drop_first().push(c));
        lemma_expand_push(s.drop_first(), c);
        assert(expand(s.push(c)) == expand_char(s[0]) + expand(s.drop_first().push(c)));
        assert(expand(s.push(c)) =~= expand(s) + expand_char(c));
    }
}

/// The whitespace that separates the two tokens.
pub open spec fn is_ws(c: char) -> bool {
    c == ' ' || c == '\t' || c == '\n' || c == '\r' || c == '\u{b}' || c == '\u{c}'
}

/// How many leading characters have the given whitespace-ness.
pub open spec fn run_len(s: Seq<char>, ws: bool) -> int
    decreases s.len(),
{
    if s.len() == 0 {
        0
    } else if is_ws(s[0]) == ws {
        1 + run_len(s.drop_first(), ws)
    } else {
        0
    }
}

pub proof fn lemma_run_len_bounds(s: Seq<char>, ws: bool)
    ensures
        0 <= run_len(s, ws) <= s.len(),
        forall|q: int| 0 <= q < run_len(s, ws) ==> is_ws(#[trigger] s[q]) == ws,
        run_len(s, ws) < s.len() ==> is_ws(s[run_len(s, ws)]) != ws,
    decreases s.len(),
{
    if s.len() > 0 && is_ws(s[0]) == ws {
        lemma_run_len_bounds(s.drop_first(), ws);
        assert forall|q: int| 0 <= q < run_len(s, ws) implies is_ws(#[trigger] s[q]) == ws by {
            if q > 0 {
                assert(is_ws(s.drop_first()[q - 1]) == ws);
            }
        }
    }
}

/// The maximal run is pinned by its content and its end.
pub proof fn lemma_run_len_eq(s: Seq<char>, ws: bool, m: int)
    requires
        0 <= m <= s.len(),
        forall|q: int| 0 <= q < m ==> is_ws(#[trigger] s[q]) == ws,
        m < s.len() ==> is_ws(s[m]) != ws,
    ensures
        run_len(s, ws) == m,
    decreases s.len(),
{
    if s.len() > 0 && m > 0 {
        assert(is_ws(s[0]) == ws);
        lemma_run_len_eq(s.drop_first(), ws, m - 1);
    }
}

/// The whitespace-separated tokens of a text, in order.
pub open spec fn ws_tokens(s: Seq<char>) -> Seq<Seq<char>>
    decreases s.len(),
    via ws_tokens_decreases
{
    if s.len() == 0 {
        Seq::empty()
    } else if is_ws(s[0]) {
        ws_tokens(s.drop_first())
    } else {
        seq![s.take(run_len(s, false))] + ws_tokens(s.skip(run_len(s, false)))
    }
}

#[via_fn]
proof fn ws_tokens_decreases(s: Seq<char>) {
    lemma_run_len_bounds(s, false);
}

/// The position of the first slash, or the length when there is none.
pub open spec fn slash_pos(s: Seq<char>) -> int
    decreases s.len(),
{
    if s.len() == 0 {
        0
    } else if s[0] == '/' {
        0
    } else {
        1 + slash_pos(s.drop_first())
    }
}

pub proof fn lemma_slash_pos(s: Seq<char>)
    ensures
        0 <= slash_pos(s) <= s.len(),
        forall|q: int| 0 <= q < slash_pos(s) ==> #[trigger] s[q] != '/',
        slash_pos(s) < s.len() ==> s[slash_pos(s)] == '/',
    decreases s.len(),
{
    if s.len() > 0 && s[0] != '/' {
        lemma_slash_pos(s.drop_first());
        assert forall|q: int| 0 <= q < slash_pos(s) implies #[trigger] s[q] != '/' by {
            if q > 0 {
                assert(s.drop_first()[q - 1] != '/');
            }
        }
    }
}

/// The first slash is pinned by what stands before it.
pub proof fn lemma_slash_pos_eq(s: Seq<char>, m: int)
    requires
        0 <= m <= s.len(),
        forall|q: int| 0 <= q < m ==> #[trigger] s[q] != '/',
        m < s.len() ==> s[m] == '/',
    ensures
        slash_pos(s) == m,
    decreases s.len(),
{
    if s.len() > 0 && m > 0 {
        lemma_slash_pos_eq(s.drop_first(), m - 1);
    }
}

/// A text split at every slash; consecutive slashes yield empty parts.
pub open spec fn split_slash(s: Seq<char>) -> Seq<Seq<char>>
    decreases s.len(),
    via split_slash_decreases
{
    let p = slash_pos(s);
    if p >= s.len() {
        seq![s]
    } else {
        seq![s.take(p)] + split_slash(s.skip(p + 1))
    }
}

#[via_fn]
proof fn split_slash_decreases(s: Seq<char>) {
    lemma_slash_pos(s);
}

/// The cell words built from the first `p` serialised positions: `x`
/// claims the cell for X, `o` for O, anything else leaves it empty.
pub open spec fn place_upto(rows: Seq<Seq<char>>, p: int) -> Board
    decreases p,
{
    if p <= 0 {
        Board { us: 0, them: 0, share: 0 }
    } else {
        let prev = place_upto(rows, p - 1);
        let cell = ser_cell((p - 1) / 9, (p - 1) % 9);
        let ch = rows[(p - 1) / 9][(p - 1) % 9];
        if ch == 'x' {
            if cell > 62 {
                Board { us: prev.us, them: prev.them, share: prev.share | (1u64 << ((cell
                    - 63) as u64)) }
            } else {
                Board { us: prev.us | (1u64 << cell), them: prev.them, share: prev.share }
            }
        } else if ch == 'o' {
            if cell > 62 {
                Board { us: prev.us, them: prev.them, share: prev.share | (1u64 << ((cell
                    - 45) as u64)) }
            } else {
                Board { us: prev.us, them: prev.them | (1u64 << cell), share: prev.share }
            }
        } else {
            prev
        }
    }
}

/// The recomputed meta bits of the zones below `z`: each side owns a zone
/// exactly when its own cells there hold a line.
pub open spec fn meta_word_upto(cells: Board, z: int) -> u64
    decreases z,
{
    if z <= 0 {
        0
    } else {
        meta_word_upto(cells, z - 1) | (if crate::bits::has_line(
            crate::board::zone_x(cells, (z - 1) as u64),
        ) {
            1u64 << ((36 + z - 1) as u64)
        } else {
            0
        }) | (if crate::bits::has_line(crate::board::zone_o(cells, (z - 1) as u64)) {
            1u64 << ((45 + z - 1) as u64)
        } else {
            0
        })
    }
}

/// The board a nine-by-nine grid of cell characters and a zone value
/// decode to.
pub open spec fn decode_board(rows: Seq<Seq<char>>, zf: u64) -> Board {
    let cells = place_upto(rows, 81);
    Board {
        us: cells.us,
        them: cells.them,
        share: cells.share | meta_word_upto(cells, 9) | (zf << 54),
    }
}

/// What a board text parses to: after decompression, exactly two
/// whitespace-separated tokens; the second a zone name or `any`; the
/// first nine slash-separated rows of nine characters; then the cells are
/// placed and the meta bits recomputed.
pub open spec fn parse_board(s: Seq<char>) -> Option<Board> {
    let e = expand(s);
    let toks = ws_tokens(e);
    if toks.len() != 2 {
        None
    } else {
        let zf: u64 = if zone_index(toks[1]) is Some {
            zone_index(toks[1])->Some_0
        } else if toks[1] == "any"@ {
            ZONE_ANY
        } else {
            10u64
        };
        if zf > 9 {
            None
        } else {
            let rows = split_slash(toks[0]);
            if rows.len() != 9 {
                None
            } else if exists|r: int| 0 <= r < 9 && #[trigger] rows[r].len() != 9 {
                None
            } else {
                Some(decode_board(rows, zf))
            }
        }
    }
}

/// The views of a vector of character vectors.
pub open spec fn views(ts: Seq<Vec<char>>) -> Seq<Seq<char>> {
    Seq::new(ts.len(), |i: int| ts[i]@)
}

/// The characters of a text, as a vector.
fn chars_of(s: &str) -> (r: Vec<char>)
    ensures
        r@ == s@,
{
    let n = s.unicode_len();
    let mut v: Vec<char> = Vec::new();
    let mut i: usize = 0;
    while i < n
        invariant
            i <= n,
            n == s@.len(),
            v@ == s@.take(i as int),
        decreases n - i,
    {
        v.push(s.get_char(i));
        proof {
            assert(v@ =~= s@.take(i as int + 1));
        }
        i = i + 1;
    }
    proof {
        assert(v@ =~= s@);
    }
    v
}

/// Decompresses every digit into its run of empty cells.
fn expand_chars(v: &Vec<char>) -> (r: Vec<char>)
    ensures
        r@ == expand(v@),
{
    let mut out: Vec<char> = Vec::new();
    let mut i: usize = 0;
    while i < v.len()
        invariant
            i <= v@.len(),
            out@ == expand(v@.take(i as int)),
        decreases v@.len() - i,
    {
        let c = v[i];
        let d: u64 = if c == '1' {
            1
        } else if c == '2' {
            2
        } else if c == '3' {
            3
        } else if c == '4' {
            4
        } else if c == '5' {
            5
        } else if c == '6' {
            6
        } else if c == '7' {
            7
        } else if c == '8' {
            8
        } else if c == '9' {
            9
        } else {
            0
        };
        proof {
            assert(d == digit_val(c));
        }
        if d >= 1 {
            let ghost mid = out@;
            let mut j: u64 = 0;
            while j < d
                invariant
                    j <= d,
                    d <= 9,
                    out@ == mid + dots(j as int),
                decreases d - j,
            {
                out.push('.');
                proof {
                    assert(out@ =~= mid + dots(j as int + 1));
                }
                j = j + 1;
            }
            proof {
                assert(out@ == mid + expand_char(c));
            }
        } else {
            out.push(c);
            proof {
                assert(out@ =~= expand(v@.take(i as int)) + expand_char(c));
            }
        }
        proof {
            assert(v@.take(i as int + 1) =~= v@.take(i as int).push(v@[i as int]));
            lemma_expand_push(v@.take(i as int), v@[i as int]);
            assert(out@ == expand(v@.take(i as int + 1)));
        }
        i = i + 1;
    }
    proof {
        assert(v@.take(v@.len() as int) =~= v@);
    }
    out
}

/// Splits a text on whitespace into its tokens.
fn tokenize(v: &Vec<char>) -> (r: Vec<Vec<char>>)
    ensures
        views(r@) == ws_tokens(v@),
{
    let mut toks: Vec<Vec<char>> = Vec::new();
    let mut i: usize = 0;
    proof {
        assert(v@.skip(0) =~= v@);
        assert(views(toks@) + ws_tokens(v@.skip(0)) =~= ws_tokens(v@));
    }
    while i < v.len()
        invariant
            i <= v@.len(),
            views(toks@) + ws_tokens(v@.skip(i as int)) == ws_tokens(v@),
        decreases v@.len() - i,
    {
        let c = v[i];
        if c == ' ' || c == '\t' || c == '\n' || c == '\r' || c == '\u{b}' || c == '\u{c}' {
            proof {
                assert(v@.skip(i as int)[0] == c);
                assert(v@.skip(i as int).drop_first() =~= v@.skip(i as int + 1));
            }
            i = i + 1;
        } else {
            let start = i;
            let mut tok: Vec<char> = Vec::new();
            while i < v.len() && v[i] != ' ' && v[i] != '\t' && v[i] != '\n' && v[i] != '\r'
                && v[i] != '\u{b}' && v[i] != '\u{c}'
                invariant
                    start <= i <= v@.len(),
                    tok@ == v@.subrange(start as int, i as int),
                    forall|q: int| start <= q < i ==> !is_ws(#[trigger] v@[q]),
                decreases v@.len() - i,
            {
                tok.push(v[i]);
                proof {
                    assert(tok@ =~= v@.subrange(start as int, i as int + 1));
                }
                i = i + 1;
            }
            proof {
                let rest = v@.skip(start as int);
                assert forall|q: int| 0 <= q < i - start implies is_ws(#[trigger] rest[q])
                    == false by {
                    assert(rest[q] == v@[start + q]);
                }
                if i < v@.len() {
                    assert(rest[i - start] == v@[i as int]);
                }
                lemma_run_len_eq(rest, false, i - start);
                assert(rest.take(i - start) =~= tok@);
                assert(rest.skip(i - start) =~= v@.skip(i as int));
                assert(ws_tokens(rest) == seq![tok@] + ws_tokens(v@.skip(i as int)));
                assert(views(toks@.push(tok)) =~= views(toks@) + seq![tok@]);
                assert((views(toks@) + seq![tok@]) + ws_tokens(v@.skip(i as int)) =~= views(
                    toks@,
                ) + (seq![tok@] + ws_tokens(v@.skip(i as int))));
            }
            toks.push(tok);
        }
    }
    proof {
        assert(v@.skip(v@.len() as int) =~= Seq::<char>::empty());
        assert(ws_tokens(Seq::<char>::empty()) =~= Seq::<Seq<char>>::empty());
        assert(views(toks@) =~= ws_tokens(v@));
    }
    toks
}

/// The zone a token names, if any.
fn zone_of_chars(v: &Vec<char>) -> (r: Option<u64>)
    ensures
        r == zone_index(v@),
        r is Some ==> r->Some_0 < 9,
{
    if v.len() == 1 {
        let c0 = v[0];
        proof {
            assert(v@ =~= seq![c0]);
            crate::text::lemma_zone_index_one(c0);
        }
        if c0 == 'n' {
            Some(1)
        } else if c0 == 'w' {
            Some(3)
        } else if c0 == 'c' {
            Some(4)
        } else if c0 == 'e' {
            Some(5)
        } else if c0 == 's' {
            Some(7)
        } else {
            None
        }
    } else if v.len() == 2 {
        let c0 = v[0];
        let c1 = v[1];
        proof {
            assert(v@ =~= seq![c0, c1]);
            crate::text::lemma_zone_index_two(c0, c1);
        }
        if c0 == 'n' && c1 == 'w' {
            Some(0)
        } else if c0 == 'n' && c1 == 'e' {
            Some(2)
        } else if c0 == 's' && c1 == 'w' {
            Some(6)
        } else if c0 == 's' && c1 == 'e' {
            Some(8)
        } else {
            None
        }
    } else {
        proof {
            crate::text::lemma_zone_index_inverse(v@);
        }
        None
    }
}

/// Whether a token reads `any`.
fn is_any_token(v: &Vec<char>) -> (r: bool)
    ensures
        r == (v@ == "any"@),
{
    let r = v.len() == 3 && v[0] == 'a' && v[1] == 'n' && v[2] == 'y';
    proof {
        reveal_strlit("any");
        assert("any"@.len() == 3);
        if r {
            assert(v@ =~= "any"@);
        }
    }
    r
}

/// Splits the tail of a character vector at every slash.
fn split_slash_exec(v: &Vec<char>, from: usize) -> (r: Vec<Vec<char>>)
    requires
        from <= v@.len(),
    ensures
        views(r@) == split_slash(v@.skip(from as int)),
    decreases v@.len() - from,
{
    let mut j = from;
    while j < v.len() && v[j] != '/'
        invariant
            from <= j <= v@.len(),
            forall|q: int| from <= q < j ==> #[trigger] v@[q] != '/',
        decreases v@.len() - j,
    {
        j = j + 1;
    }
    let mut seg: Vec<char> = Vec::new();
    let mut t = from;
    while t < j
        invariant
            from <= t <= j <= v@.len(),
            seg@ == v@.subrange(from as int, t as int),
        decreases j - t,
    {
        seg.push(v[t]);
        proof {
            assert(seg@ =~= v@.subrange(from as int, t as int + 1));
        }
        t = t + 1;
    }
    proof {
        let rest = v@.skip(from as int);
        assert forall|q: int| 0 <= q < j - from implies #[trigger] rest[q] != '/' by {
            assert(rest[q] == v@[from + q]);
        }
        if j < v@.len() {
            assert(rest[j - from] == v@[j as int]);
        }
        lemma_slash_pos_eq(rest, j - from);
        assert(rest.take(j - from) =~= seg@);
    }
    if j == v.len() {
        let mut r: Vec<Vec<char>> = Vec::new();
        r.push(seg);
        proof {
            assert(v@.skip(from as int).take(j - from) =~= v@.skip(from as int));
            assert(views(r@) =~= split_slash(v@.skip(from as int)));
        }
        r
    } else {
        let ghost segv = seg@;
        let mut rest_rows = split_slash_exec(v, j + 1);
        rest_rows.insert(0, seg);
        proof {
            assert(v@.skip(from as int).skip(j - from + 1) =~= v@.skip(j as int + 1));
            assert(views(rest_rows@) =~= seq![segv] + split_slash(v@.skip(j as int + 1)));
            assert(views(rest_rows@) =~= split_slash(v@.skip(from as int)));
        }
        rest_rows
    }
}

/// Places the 81 cell characters into the three words.
fn place_cells(rows: &Vec<Vec<char>>) -> (r: Board)
    requires
        rows@.len() == 9,
        forall|ri: int| 0 <= ri < 9 ==> (#[trigger] rows@[ri])@.len() == 9,
    ensures
        r == place_upto(views(rows@), 81),
{
    let mut us: u64 = 0;
    let mut them: u64 = 0;
    let mut share: u64 = 0;
    let mut p: usize = 0;
    while p < 81
        invariant
            p <= 81,
            rows@.len() == 9,
            forall|ri: int| 0 <= ri < 9 ==> (#[trigger] rows@[ri])@.len() == 9,
            (Board { us, them, share }) == place_upto(views(rows@), p as int),
        decreases 81 - p,
    {
        let ri = p / 9;
        let k = p % 9;
        let ch = rows[ri][k];
        let cell = ser_cell_of(ri as u64, k as u64);
        proof {
            assert(views(rows@)[ri as int] == rows@[ri as int]@);
        }
        if ch == 'x' {
            if cell > 62 {
                share = share | (1u64 << (cell - 63));
            } else {
                us = us | (1u64 << cell);
            }
        } else if ch == 'o' {
            if cell > 62 {
                share = share | (1u64 << (cell - 45));
            } else {
                them = them | (1u64 << cell);
            }
        }
        p = p + 1;
        proof {
            assert((Board { us, them, share }) == place_upto(views(rows@), p as int));
        }
    }
    Board { us, them, share }
}

/// Recomputes the meta bits of the placed cells, each side from its own
/// lines.
fn recompute_meta(cells: &Board) -> (m: u64)
    ensures
        m == meta_word_upto(*cells, 9),
{
    let mut m: u64 = 0;
    let mut z: u64 = 0;
    while z < 9
        invariant
            z <= 9,
            m == meta_word_upto(*cells, z as int),
        decreases 9 - z,
    {
        let xt: u64 = if crate::bits::line_presence(crate::board::zone_x_of(cells, z)) {
            1u64 << (36 + z)
        } else {
            0
        };
        let ot: u64 = if crate::bits::line_presence(crate::board::zone_o_of(cells, z)) {
            1u64 << (45 + z)
        } else {
            0
        };
        m = (m | xt) | ot;
        z = z + 1;
        proof {
            assert(m == meta_word_upto(*cells, z as int));
        }
    }
    m
}

/// Reads a board back from its compact text: the cell characters are
/// placed, the meta bits recomputed from each side's own lines, and the
/// zone token becomes the next-zone field.
pub fn board_from_string(board_text: &str) -> (r: Option<Board>)
    ensures
        r == parse_board(board_text@),
{
    let cs = chars_of(board_text);
    let ex = expand_chars(&cs);
    let toks = tokenize(&ex);
    if toks.len() != 2 {
        return None;
    }
    proof {
        assert(views(toks@)[0] == toks@[0]@ && views(toks@)[1] == toks@[1]@);
    }
    let zf: u64 = match zone_of_chars(&toks[1]) {
        Some(z) => z,
        None => {
            if is_any_token(&toks[1]) {
                ZONE_ANY
            } else {
                return None;
            }
        },
    };
    let rows = split_slash_exec(&toks[0], 0);
    proof {
        assert(toks@[0]@.skip(0) =~= toks@[0]@);
    }
    if rows.len() != 9 {
        return None;
    }
    let mut ri: usize = 0;
    let mut all_nine = true;
    while ri < 9
        invariant
            ri <= 9,
            rows@.len() == 9,
            all_nine == (forall|q: int| 0 <= q < ri ==> (#[trigger] rows@[q])@.len() == 9),
        decreases 9 - ri,
    {
        if rows[ri].len() != 9 {
            all_nine = false;
        }
        ri = ri + 1;
    }
    if !all_nine {
        proof {
            let q = choose|q: int| 0 <= q < 9 && (#[trigger] rows@[q])@.len() != 9;
            assert(views(rows@)[q].len() != 9);
        }
        return None;
    }
    let cells = place_cells(&rows);
    let meta = recompute_meta(&cells);
    proof {
        assert(forall|q: int| 0 <= q < 9 ==> #[trigger] views(rows@)[q].len() == 9);
    }
    Some(Board { us: cells.us, them: cells.them, share: (cells.share | meta) | (zf << 54) })
}

/// Decompression distributes over concatenation.
proof fn lemma_expand_concat(u: Seq<char>, v: Seq<char>)
    ensures
        expand(u + v) == expand(u) + expand(v),
    decreases u.len(),
{
    if u.len() == 0 {
        assert(u + v =~= v);
        assert(expand(u) + expand(v) =~= expand(v));
    } else {
        assert((u + v)[0] == u[0]);
        assert((u + v).drop_first() =~= u.drop_first() + v);
        lemma_expand_concat(u.drop_first(), v);
        assert(expand(u + v) =~= expand(u) + expand(v));
    }
}

/// A digit-free text decompresses to itself.
proof fn lemma_expand_id(s: Seq<char>)
    requires
        forall|j: int| 0 <= j < s.len() ==> digit_val(#[trigger] s[j]) == 0,
    ensures
        expand(s) == s,
    decreases s.len(),
{
    if s.len() > 0 {
        assert forall|j: int| 0 <= j < s.drop_first().len() implies digit_val(
            #[trigger] s.drop_first()[j],
        ) == 0 by {
            assert(s.drop_first()[j] == s[j + 1]);
        }
        lemma_expand_id(s.drop_first());
        assert(expand(s) =~= s);
    }
}

/// Decompressing a compressed row of plain cell characters restores the
/// pending run and the remaining characters.
proof fn lemma_expand_rle(s: Seq<char>, i: int, run: int)
    requires
        0 <= i <= s.len(),
        0 <= run,
        run + (s.len() - i) <= 9,
        forall|j: int| i <= j < s.len() ==> digit_val(#[trigger] s[j]) == 0,
    ensures
        expand(rle(s, i, run)) == dots(run) + s.skip(i),
    decreases s.len() - i,
{
    if i >= s.len() {
        if run > 0 {
            let one = seq![digit_char(run)];
            assert(one[0] == digit_char(run));
            assert(digit_val(digit_char(run)) == run);
            assert(one.drop_first() =~= Seq::<char>::empty());
            assert(expand(one) == expand_char(digit_char(run)) + expand(Seq::<char>::empty()));
            assert(expand(rle(s, i, run)) =~= dots(run) + s.skip(i));
        } else {
            assert(expand(rle(s, i, run)) =~= dots(run) + s.skip(i));
        }
    } else if s[i] == '.' {
        lemma_expand_rle(s, i + 1, run + 1);
        assert(s.skip(i)[0] == s[i]);
        assert(dots(run + 1) + s.skip(i + 1) =~= dots(run) + s.skip(i));
    } else if run > 0 {
        lemma_expand_rle(s, i + 1, 0);
        let two = seq![digit_char(run), s[i]];
        lemma_expand_concat(two, rle(s, i + 1, 0));
        assert(two[0] == digit_char(run) && two.drop_first() =~= seq![s[i]]);
        assert(digit_val(digit_char(run)) == run);
        assert(digit_val(s[i]) == 0);
        assert(seq![s[i]][0] == s[i] && seq![s[i]].drop_first() =~= Seq::<char>::empty());
        assert(expand(seq![s[i]]) == expand_char(s[i]) + expand(Seq::<char>::empty()));
        assert(expand(two) =~= dots(run) + seq![s[i]]);
        assert(dots(0) + s.skip(i + 1) =~= s.skip(i + 1));
        assert(expand(rle(s, i, run)) =~= dots(run) + s.skip(i));
    } else {
        lemma_expand_rle(s, i + 1, 0);
        let one = seq![s[i]];
        lemma_expand_concat(one, rle(s, i + 1, 0));
        assert(one[0] == s[i] && one.drop_first() =~= Seq::<char>::empty());
        assert(digit_val(s[i]) == 0);
        assert(expand(one) == expand_char(s[i]) + expand(Seq::<char>::empty()));
        assert(dots(0) + s.skip(i + 1) =~= s.skip(i + 1));
        assert(expand(rle(s, i, run)) =~= dots(run) + s.skip(i));
    }
}

/// Cell characters are neither digits, slashes nor whitespace.
proof fn lemma_row_chars_plain(b: Board, r: int)
    ensures
        row_chars(b, r).len() == 9,
        forall|j: int| 0 <= j < 9 ==> digit_val(#[trigger] row_chars(b, r)[j]) == 0,
        forall|j: int| 0 <= j < 9 ==> #[trigger] row_chars(b, r)[j] != '/',
        forall|j: int| 0 <= j < 9 ==> !is_ws(#[trigger] row_chars(b, r)[j]),
{
    assert forall|j: int| 0 <= j < 9 implies digit_val(#[trigger] row_chars(b, r)[j]) == 0
        && row_chars(b, r)[j] != '/' && !is_ws(row_chars(b, r)[j]) by {
        let ch = cell_char(b, ser_cell(r, j));
        assert(ch == 'x' || ch == 'o' || ch == '.');
    }
}

/// Decompressing a compressed row restores it.
proof fn lemma_expand_row(b: Board, r: int)
    ensures
        expand(compress(row_chars(b, r))) == row_chars(b, r),
{
    lemma_row_chars_plain(b, r);
    lemma_expand_rle(row_chars(b, r), 0, 0);
    assert(dots(0) + row_chars(b, r).skip(0) =~= row_chars(b, r));
}

/// The first `n` rows, uncompressed and joined by slashes.
spec fn raw_rows_upto(b: Board, n: int) -> Seq<char>
    decreases n,
{
    if n <= 1 {
        row_chars(b, 0)
    } else {
        raw_rows_upto(b, n - 1) + seq!['/'] + row_chars(b, n - 1)
    }
}

/// The rows from `m` on, uncompressed and joined by slashes.
spec fn rows_from(b: Board, m: int) -> Seq<char>
    decreases 8 - m,
{
    if m >= 8 {
        row_chars(b, 8)
    } else {
        row_chars(b, m) + seq!['/'] + rows_from(b, m + 1)
    }
}

/// Decompressing the encoded rows yields the raw rows.
proof fn lemma_expand_rows(b: Board, n: int)
    requires
        1 <= n <= 9,
    ensures
        expand(encode_rows_upto(b, n)) == raw_rows_upto(b, n),
    decreases n,
{
    if n <= 1 {
        lemma_expand_row(b, 0);
    } else {
        lemma_expand_rows(b, n - 1);
        lemma_expand_concat(encode_rows_upto(b, n - 1) + seq!['/'], compress(row_chars(b, n - 1)));
        lemma_expand_concat(encode_rows_upto(b, n - 1), seq!['/']);
        assert(seq!['/'][0] == '/' && seq!['/'].drop_first() =~= Seq::<char>::empty());
        assert(digit_val('/') == 0);
        assert(expand(seq!['/']) == expand_char('/') + expand(Seq::<char>::empty()));
        assert(expand(seq!['/']) =~= seq!['/']);
        lemma_expand_row(b, n - 1);
        assert(expand(encode_rows_upto(b, n)) =~= raw_rows_upto(b, n));
    }
}

/// The length of the joined rows from `m` on.
proof fn lemma_rows_from_len(b: Board, m: int)
    requires
        0 <= m <= 8,
    ensures
        rows_from(b, m).len() == 9 * (9 - m) + (8 - m),
        forall|j: int| 0 <= j < rows_from(b, m).len() ==> !is_ws(#[trigger] rows_from(b, m)[j]),
    decreases 8 - m,
{
    lemma_row_chars_plain(b, m);
    if m < 8 {
        lemma_rows_from_len(b, m + 1);
        assert forall|j: int| 0 <= j < rows_from(b, m).len() implies !is_ws(
            #[trigger] rows_from(b, m)[j],
        ) by {
            let s = rows_from(b, m);
            if j < 9 {
                assert(s[j] == row_chars(b, m)[j]);
            } else if j == 9 {
                assert(s[j] == '/');
            } else {
                assert(s[j] == rows_from(b, m + 1)[j - 10]);
            }
        }
    }
}

/// The left-nested join equals the right-nested join.
proof fn lemma_rows_bridge(b: Board, n: int)
    requires
        1 <= n <= 8,
    ensures
        raw_rows_upto(b, 9) == raw_rows_upto(b, n) + seq!['/'] + rows_from(b, n),
    decreases 9 - n,
{
    if n == 8 {
    } else {
        lemma_rows_bridge(b, n + 1);
        assert(raw_rows_upto(b, n + 1) + seq!['/'] + rows_from(b, n + 1) =~= raw_rows_upto(b, n)
            + seq!['/'] + (row_chars(b, n) + seq!['/'] + rows_from(b, n + 1)));
    }
}

/// The raw rows are the right-nested join of all nine rows.
proof fn lemma_raw_is_rows_from(b: Board)
    ensures
        raw_rows_upto(b, 9) == rows_from(b, 0),
{
    lemma_rows_bridge(b, 1);
    assert(raw_rows_upto(b, 1) + seq!['/'] + rows_from(b, 1) =~= rows_from(b, 0));
}

/// Tokenising two plain words around one space yields the two words.
proof fn lemma_tokens_two(u: Seq<char>, v: Seq<char>)
    requires
        u.len() > 0,
        v.len() > 0,
        forall|j: int| 0 <= j < u.len() ==> !is_ws(#[trigger] u[j]),
        forall|j: int| 0 <= j < v.len() ==> !is_ws(#[trigger] v[j]),
    ensures
        ws_tokens(u + seq![' '] + v) == seq![u, v],
{
    let s = u + seq![' '] + v;
    assert forall|q: int| 0 <= q < u.len() implies is_ws(#[trigger] s[q]) == false by {
        assert(s[q] == u[q]);
    }
    assert(s[u.len() as int] == ' ');
    lemma_run_len_eq(s, false, u.len() as int);
    assert(s[0] == u[0]);
    assert(s.take(u.len() as int) =~= u);
    assert(s.skip(u.len() as int) =~= seq![' '] + v);
    let t = seq![' '] + v;
    assert(t[0] == ' ');
    assert(t.drop_first() =~= v);
    lemma_run_len_eq(v, false, v.len() as int);
    assert(!is_ws(v[0]));
    assert(v.take(v.len() as int) =~= v);
    assert(v.skip(v.len() as int) =~= Seq::<char>::empty());
    assert(ws_tokens(Seq::<char>::empty()) =~= Seq::<Seq<char>>::empty());
    assert(ws_tokens(v) =~= seq![v]);
    assert(run_len(s, false) == u.len());
    assert(!is_ws(s[0]));
    assert(s.len() > 0);
    assert(ws_tokens(s) == seq![s.take(run_len(s, false))] + ws_tokens(s.skip(run_len(s, false))));
    assert(ws_tokens(s.skip(u.len() as int)) == ws_tokens(t));
    assert(ws_tokens(t) == ws_tokens(v));
    assert(ws_tokens(s) =~= seq![u, v]);
}

/// Splitting the joined rows at the slashes yields the nine rows.
proof fn lemma_split_rows(b: Board, m: int)
    requires
        0 <= m <= 8,
    ensures
        split_slash(rows_from(b, m)) == Seq::new((9 - m) as nat, |i: int| row_chars(b, m + i)),
    decreases 8 - m,
{
    lemma_row_chars_plain(b, m);
    lemma_rows_from_len(b, m);
    let s = rows_from(b, m);
    if m >= 8 {
        lemma_slash_pos_eq(s, 9);
        assert(split_slash(s) =~= Seq::new(1, |i: int| row_chars(b, 8 + i)));
    } else {
        lemma_rows_from_len(b, m + 1);
        assert forall|q: int| 0 <= q < 9 implies #[trigger] s[q] != '/' by {
            assert(s[q] == row_chars(b, m)[q]);
        }
        assert(s[9] == '/');
        lemma_slash_pos_eq(s, 9);
        assert(s.take(9) =~= row_chars(b, m));
        assert(s.skip(10) =~= rows_from(b, m + 1));
        lemma_split_rows(b, m + 1);
        assert(split_slash(s) =~= Seq::new((9 - m) as nat, |i: int| row_chars(b, m + i)));
    }
}

/// A zone name reads back as its own zone.
proof fn lemma_zone_name_index(z: int)
    requires
        0 <= z < 9,
    ensures
        zone_index(zone_name(z)) == Some(z as u64),
{
    reveal_zone_names();
    assert(zone_name(0).len() == 2 && zone_name(0)[0] == 'n' && zone_name(0)[1] == 'w');
    assert(zone_name(1).len() == 1 && zone_name(1)[0] == 'n');
    assert(zone_name(2).len() == 2 && zone_name(2)[0] == 'n' && zone_name(2)[1] == 'e');
    assert(zone_name(3).len() == 1 && zone_name(3)[0] == 'w');
    assert(zone_name(4).len() == 1 && zone_name(4)[0] == 'c');
    assert(zone_name(5).len() == 1 && zone_name(5)[0] == 'e');
    assert(zone_name(6).len() == 2 && zone_name(6)[0] == 's' && zone_name(6)[1] == 'w');
    assert(zone_name(7).len() == 1 && zone_name(7)[0] == 's');
    assert(zone_name(8).len() == 2 && zone_name(8)[0] == 's' && zone_name(8)[1] == 'e');
}

/// The zone token is plain text and parses back to the zone field.
proof fn lemma_zone_token_facts(b: Board)
    requires
        zone_field(b) <= 9,
    ensures
        zone_token(b).len() > 0,
        forall|j: int| 0 <= j < zone_token(b).len() ==> !is_ws(#[trigger] zone_token(b)[j]),
        forall|j: int| 0 <= j < zone_token(b).len() ==> digit_val(#[trigger] zone_token(b)[j])
            == 0,
        zone_field(b) == ZONE_ANY ==> zone_index(zone_token(b)) is None && zone_token(b)
            == "any"@,
        zone_field(b) < 9 ==> zone_index(zone_token(b)) == Some(zone_field(b)),
{
    reveal_zone_names();
    reveal_strlit("any");
    if zone_field(b) == ZONE_ANY {
        crate::text::lemma_zone_index_inverse("any"@);
        assert(("any"@).len() == 3);
        assert forall|j: int| 0 <= j < zone_token(b).len() implies !is_ws(
            #[trigger] zone_token(b)[j],
        ) && digit_val(zone_token(b)[j]) == 0 by {
            assert(zone_token(b)[j] == 'a' || zone_token(b)[j] == 'n' || zone_token(b)[j] == 'y');
        }
    } else {
        lemma_zone_name_index(zone_field(b) as int);
        assert forall|j: int| 0 <= j < zone_token(b).len() implies !is_ws(
            #[trigger] zone_token(b)[j],
        ) && digit_val(zone_token(b)[j]) == 0 by {
            let t = zone_token(b);
            assert(t[j] == 'n' || t[j] == 'w' || t[j] == 'e' || t[j] == 's' || t[j] == 'c');
        }
    }
}

/// The row-major position at which the codec writes cell `c`.
spec fn ser_pos(c: u64) -> int {
    9 * (3 * ((c as int) / 27) + ((c as int) % 9) / 3) + 3 * (((c as int) % 27) / 9) + (
    c as int) % 3
}

/// The position of the cell at row `r`, column `k` is `9 r + k`.
proof fn lemma_ser_pos(r: int, k: int)
    requires
        0 <= r < 9,
        0 <= k < 9,
    ensures
        ser_pos(ser_cell(r, k)) == 9 * r + k,
        ser_cell(r, k) < 81,
{
    let a = r / 3;
    let d = r % 3;
    let bq = k / 3;
    let e = k % 3;
    let c = 27 * a + 3 * d + 9 * bq + e;
    assert(0 <= c < 81);
    assert(ser_cell(r, k) == c);
    assert(c / 27 == a && c % 27 == 3 * d + 9 * bq + e) by (nonlinear_arith)
        requires
            0 <= a <= 2 && 0 <= d <= 2 && 0 <= bq <= 2 && 0 <= e <= 2 && c == 27 * a + 3 * d + 9
                * bq + e,
    ;
    assert((c % 27) / 9 == bq && (c % 27) % 9 == 3 * d + e) by (nonlinear_arith)
        requires
            0 <= d <= 2 && 0 <= bq <= 2 && 0 <= e <= 2 && c % 27 == 3 * d + 9 * bq + e,
    ;
    assert(c % 9 == 3 * d + e) by (nonlinear_arith)
        requires
            0 <= a <= 2 && 0 <= d <= 2 && 0 <= bq <= 2 && 0 <= e <= 2 && c == 27 * a + 3 * d + 9
                * bq + e,
    ;
    assert((c % 9) / 3 == d && c % 3 == e) by (nonlinear_arith)
        requires
            0 <= d <= 2 && 0 <= e <= 2 && c % 9 == 3 * d + e && c % 27 == 3 * d + 9 * bq + e && 0
                <= bq <= 2 && c == 27 * a + 3 * d + 9 * bq + e,
    ;
}

/// A cell is recovered from its position.
proof fn lemma_ser_pos_bounds(c: u64)
    requires
        c < 81,
    ensures
        0 <= ser_pos(c) < 81,
        ser_cell(ser_pos(c) / 9, ser_pos(c) % 9) == c,
{
    let ci = c as int;
    let a = ci / 27;
    let m27 = ci % 27;
    let bq = m27 / 9;
    let d = (ci % 9) / 3;
    let e = ci % 3;
    assert(0 <= a <= 2 && 0 <= m27 < 27 && 0 <= bq <= 2 && 0 <= d <= 2 && 0 <= e <= 2);
    assert(ci == 27 * a + 9 * bq + 3 * d + e) by (nonlinear_arith)
        requires
            a == ci / 27 && m27 == ci % 27 && bq == m27 / 9 && d == (ci % 9) / 3 && e == ci % 3
                && 0 <= ci < 81,
    ;
    let p = ser_pos(c);
    assert(p == 9 * (3 * a + d) + 3 * bq + e);
    assert(0 <= p < 81);
    assert(p / 9 == 3 * a + d && p % 9 == 3 * bq + e) by (nonlinear_arith)
        requires
            p == 9 * (3 * a + d) + 3 * bq + e && 0 <= a <= 2 && 0 <= bq <= 2 && 0 <= d <= 2 && 0
                <= e <= 2,
    ;
    assert((3 * a + d) / 3 == a && (3 * a + d) % 3 == d && (3 * bq + e) / 3 == bq && (3 * bq + e)
        % 3 == e) by (nonlinear_arith)
        requires
            0 <= a <= 2 && 0 <= bq <= 2 && 0 <= d <= 2 && 0 <= e <= 2,
    ;
    assert(ser_cell(p / 9, p % 9) == c);
}

/// One bit of an `or`, as a boolean; and `or` with zero.
proof fn lemma_or_bit_bool(x: u64, y: u64, t: u64)
    by (bit_vector)
    ensures
        (((x | y) >> t) & 1 == 1) == (((x >> t) & 1 == 1) || ((y >> t) & 1 == 1)),
        x | 0 == x,
        0 | y == y,
{
}

/// Distinct positions below the count placed mean distinct cells; the
/// placed words hold exactly the cells already written.
proof fn lemma_place_rows(b: Board, p: int)
    requires
        0 <= p <= 81,
        forall|c: u64| c < 81 ==> !(#[trigger] x_bit(b, c) && o_bit(b, c)),
    ensures
        ({
            let cells = place_upto(Seq::new(9, |r: int| row_chars(b, r)), p);
            &&& forall|c: u64|
                c < 81 ==> #[trigger] x_bit(cells, c) == (x_bit(b, c) && ser_pos(c) < p)
            &&& forall|c: u64|
                c < 81 ==> #[trigger] o_bit(cells, c) == (o_bit(b, c) && ser_pos(c) < p)
            &&& !crate::bits::grid_bit(cells.us, 63)
            &&& !crate::bits::grid_bit(cells.them, 63)
            &&& forall|t: u64| 36 <= t < 64 ==> !(#[trigger] crate::bits::grid_bit(cells.share, t))
        }),
    decreases p,
{
    let rows = Seq::new(9, |r: int| row_chars(b, r));
    let cells = place_upto(rows, p);
    if p == 0 {
        assert forall|c: u64| c < 81 implies !(#[trigger] x_bit(cells, c)) by {
            crate::board::lemma_zero_bit(c);
            if c >= 63 {
                crate::board::lemma_zero_bit((c - 63) as u64);
            }
        }
        assert forall|c: u64| c < 81 implies !(#[trigger] o_bit(cells, c)) by {
            crate::board::lemma_zero_bit(c);
            if c >= 63 {
                crate::board::lemma_zero_bit((c - 45) as u64);
            }
        }
        assert forall|t: u64| t < 64 implies !(#[trigger] crate::bits::grid_bit(
            cells.share,
            t,
        )) by {
            crate::board::lemma_zero_bit(t);
        }
        crate::board::lemma_zero_bit(63);
        assert(!crate::bits::grid_bit(cells.us, 63) && !crate::bits::grid_bit(cells.them, 63));
    } else {
        lemma_place_rows(b, p - 1);
        let prev = place_upto(rows, p - 1);
        let r0 = (p - 1) / 9;
        let k0 = (p - 1) % 9;
        let cstar = ser_cell(r0, k0);
        lemma_ser_pos(r0, k0);
        let ch = rows[r0][k0];
        assert(ch == cell_char(b, cstar));
        assert forall|c: u64| c < 81 && ser_pos(c) == p - 1 implies c == cstar by {
            lemma_ser_pos_bounds(c);
        }
        let wrote_x: bool = ch == 'x';
        let wrote_o: bool = ch == 'o';
        assert(wrote_x == x_bit(b, cstar));
        assert(wrote_o == (!x_bit(b, cstar) && o_bit(b, cstar)));
        assert forall|c: u64| c < 81 implies #[trigger] x_bit(cells, c) == (x_bit(b, c)
            && ser_pos(c) < p) by {
            lemma_ser_pos_bounds(c);
            assert(x_bit(prev, c) == (x_bit(b, c) && ser_pos(c) < p - 1));
            assert(o_bit(prev, c) == (o_bit(b, c) && ser_pos(c) < p - 1));
            if wrote_x {
                if cstar > 62 {
                    if c >= 63 {
                        crate::board::lemma_or_bit(prev.share, (cstar - 63) as u64, (c
                            - 63) as u64);
                    }
                } else {
                    if c < 63 {
                        crate::board::lemma_or_bit(prev.us, cstar, c);
                    }
                }
            } else if wrote_o {
                if cstar > 62 {
                    if c >= 63 {
                        crate::board::lemma_or_bit(prev.share, (cstar - 45) as u64, (c
                            - 63) as u64);
                    }
                } else {
                    if c < 63 {
                        crate::board::lemma_or_bit(prev.them, cstar, c);
                    }
                }
            }
        }
        assert forall|c: u64| c < 81 implies #[trigger] o_bit(cells, c) == (o_bit(b, c)
            && ser_pos(c) < p) by {
            lemma_ser_pos_bounds(c);
            assert(x_bit(prev, c) == (x_bit(b, c) && ser_pos(c) < p - 1));
            assert(o_bit(prev, c) == (o_bit(b, c) && ser_pos(c) < p - 1));
            if wrote_x {
                if cstar > 62 {
                    if c >= 63 {
                        crate::board::lemma_or_bit(prev.share, (cstar - 63) as u64, (c
                            - 45) as u64);
                    }
                } else {
                    if c < 63 {
                        crate::board::lemma_or_bit(prev.us, cstar, c);
                    }
                }
            } else if wrote_o {
                if cstar > 62 {
                    if c >= 63 {
                        crate::board::lemma_or_bit(prev.share, (cstar - 45) as u64, (c
                            - 45) as u64);
                    }
                } else {
                    if c < 63 {
                        crate::board::lemma_or_bit(prev.them, cstar, c);
                    }
                }
            }
        }
        if wrote_x && cstar < 63 {
            crate::board::lemma_or_bit(prev.us, cstar, 63);
        }
        if wrote_o && cstar < 63 {
            crate::board::lemma_or_bit(prev.them, cstar, 63);
        }
        assert forall|t: u64| 36 <= t < 64 implies !(#[trigger] crate::bits::grid_bit(
            cells.share,
            t,
        )) by {
            assert(!crate::bits::grid_bit(prev.share, t));
            if wrote_x && cstar > 62 {
                crate::board::lemma_or_bit(prev.share, (cstar - 63) as u64, t);
            }
            if wrote_o && cstar > 62 {
                crate::board::lemma_or_bit(prev.share, (cstar - 45) as u64, t);
            }
        }
    }
}

/// The bits of the recomputed meta word.
proof fn lemma_meta_word_bits(cells: Board, n: int)
    requires
        0 <= n <= 9,
    ensures
        forall|t: u64|
            t < 64 ==> #[trigger] crate::bits::grid_bit(meta_word_upto(cells, n), t) == ((36 <= t
                < 36 + n && crate::bits::has_line(crate::board::zone_x(cells, (t - 36) as u64)))
                || (45 <= t < 45 + n && crate::bits::has_line(
                crate::board::zone_o(cells, (t - 45) as u64),
            ))),
    decreases n,
{
    if n == 0 {
        assert forall|t: u64| t < 64 implies !(#[trigger] crate::bits::grid_bit(
            meta_word_upto(cells, 0),
            t,
        )) by {
            crate::board::lemma_zero_bit(t);
        }
    } else {
        lemma_meta_word_bits(cells, n - 1);
        let prev = meta_word_upto(cells, n - 1);
        let xt: u64 = if crate::bits::has_line(crate::board::zone_x(cells, (n - 1) as u64)) {
            1u64 << ((36 + n - 1) as u64)
        } else {
            0
        };
        let ot: u64 = if crate::bits::has_line(crate::board::zone_o(cells, (n - 1) as u64)) {
            1u64 << ((45 + n - 1) as u64)
        } else {
            0
        };
        assert forall|t: u64| t < 64 implies #[trigger] crate::bits::grid_bit(
            meta_word_upto(cells, n),
            t,
        ) == ((36 <= t < 36 + n && crate::bits::has_line(
            crate::board::zone_x(cells, (t - 36) as u64),
        )) || (45 <= t < 45 + n && crate::bits::has_line(
            crate::board::zone_o(cells, (t - 45) as u64),
        ))) by {
            lemma_or_bit_bool(prev, xt, t);
            lemma_or_bit_bool(prev | xt, ot, t);
            crate::board::lemma_zero_bit(t);
            assert(crate::bits::grid_bit(prev, t) == ((36 <= t < 36 + (n - 1)
                && crate::bits::has_line(crate::board::zone_x(cells, (t - 36) as u64))) || (45
                <= t < 45 + (n - 1) && crate::bits::has_line(
                crate::board::zone_o(cells, (t - 45) as u64),
            ))));
            if crate::bits::has_line(crate::board::zone_x(cells, (n - 1) as u64)) {
                crate::board::lemma_or_bit(0, (36 + n - 1) as u64, t);
                lemma_or_bit_bool(0, 1u64 << ((36 + n - 1) as u64), t);
                assert(0u64 | (1u64 << ((36 + n - 1) as u64)) == 1u64 << ((36 + n - 1) as u64));
                assert((xt >> t) & 1 == ((0u64 | (1u64 << ((36 + n - 1) as u64))) >> t) & 1);
            } else {
                assert(xt == 0);
            }
            if crate::bits::has_line(crate::board::zone_o(cells, (n - 1) as u64)) {
                crate::board::lemma_or_bit(0, (45 + n - 1) as u64, t);
                lemma_or_bit_bool(0, 1u64 << ((45 + n - 1) as u64), t);
                assert(0u64 | (1u64 << ((45 + n - 1) as u64)) == 1u64 << ((45 + n - 1) as u64));
                assert((ot >> t) & 1 == ((0u64 | (1u64 << ((45 + n - 1) as u64))) >> t) & 1);
            } else {
                assert(ot == 0);
            }
        }
    }
}

/// The bits of the shifted zone field.
proof fn lemma_zf_bits(zf: u64, t: u64)
    by (bit_vector)
    requires
        zf <= 15,
        t < 64,
    ensures
        ((zf << 54) >> t) & 1 == (if 54 <= t < 58 {
            (zf >> ((t - 54) as u64)) & 1
        } else {
            0u64
        }),
{
}

/// A bit of the zone field, against the field value.
pub proof fn lemma_field_bits(x: u64, t: u64)
    by (bit_vector)
    requires
        54 <= t < 58,
    ensures
        (x >> t) & 1 == (((x >> 54) & 15) >> ((t - 54) as u64)) & 1,
{
}

/// Decoding the rows and zone of a well-formed board rebuilds the very
/// same three words: each cell returns to its slot, and the recomputed
/// meta bits agree with the board's own, because each was set exactly
/// when its side's sub-grid held a line.
proof fn lemma_decode_inverse(b: Board)
    requires
        wf(b),
    ensures
        decode_board(Seq::new(9, |r: int| row_chars(b, r)), zone_field(b)) == b,
{
    let rows = Seq::new(9, |r: int| row_chars(b, r));
    let cells = place_upto(rows, 81);
    lemma_place_rows(b, 81);
    assert forall|t: u64| t < 64 implies #[trigger] ((cells.us >> t) & 1) == ((b.us >> t)
        & 1) by {
        crate::tables::lemma_bit01(cells.us, t);
        crate::tables::lemma_bit01(b.us, t);
        if t < 63 {
            lemma_ser_pos_bounds(t);
            assert(x_bit(cells, t) == (x_bit(b, t) && ser_pos(t) < 81));
        }
    }
    lemma_word_eq(cells.us, b.us);
    assert forall|t: u64| t < 64 implies #[trigger] ((cells.them >> t) & 1) == ((b.them >> t)
        & 1) by {
        crate::tables::lemma_bit01(cells.them, t);
        crate::tables::lemma_bit01(b.them, t);
        if t < 63 {
            lemma_ser_pos_bounds(t);
            assert(o_bit(cells, t) == (o_bit(b, t) && ser_pos(t) < 81));
        }
    }
    lemma_word_eq(cells.them, b.them);
    assert forall|t: u64| t < 36 implies #[trigger] ((cells.share >> t) & 1) == ((b.share >> t)
        & 1) by {
        crate::tables::lemma_bit01(cells.share, t);
        crate::tables::lemma_bit01(b.share, t);
        if t < 18 {
            lemma_ser_pos_bounds((t + 63) as u64);
            assert(x_bit(cells, (t + 63) as u64) == (x_bit(b, (t + 63) as u64) && ser_pos(
                (t + 63) as u64,
            ) < 81));
        } else {
            lemma_ser_pos_bounds((t + 45) as u64);
            assert(o_bit(cells, (t + 45) as u64) == (o_bit(b, (t + 45) as u64) && ser_pos(
                (t + 45) as u64,
            ) < 81));
        }
    }
    assert forall|z: u64| z < 9 implies #[trigger] crate::board::zone_x(cells, z)
        == crate::board::zone_x(b, z) by {
        if z >= 7 {
            lemma_window_eq(cells.share, b.share, (9 * z - 63) as u64);
        }
    }
    assert forall|z: u64| z < 9 implies #[trigger] crate::board::zone_o(cells, z)
        == crate::board::zone_o(b, z) by {
        if z >= 7 {
            lemma_window_eq(cells.share, b.share, (9 * z - 45) as u64);
        }
    }
    let zf = zone_field(b);
    let m = meta_word_upto(cells, 9);
    lemma_meta_word_bits(cells, 9);
    let fin = (cells.share | m) | (zf << 54);
    assert forall|t: u64| t < 64 implies #[trigger] ((fin >> t) & 1) == ((b.share >> t) & 1) by {
        lemma_or_bit_bool(cells.share, m, t);
        lemma_or_bit_bool(cells.share | m, zf << 54, t);
        lemma_zf_bits(zf, t);
        crate::tables::lemma_bit01(cells.share, t);
        crate::tables::lemma_bit01(m, t);
        crate::tables::lemma_bit01(zf << 54, t);
        crate::tables::lemma_bit01(b.share, t);
        crate::tables::lemma_bit01(fin, t);
        let mb = crate::bits::grid_bit(m, t);
        if t >= 36 {
            assert(!crate::bits::grid_bit(cells.share, t));
        }
        if t >= 58 {
            assert(!crate::bits::grid_bit(b.share, t));
        }
        if 36 <= t < 45 {
            assert(crate::board::zone_x(cells, (t - 36) as u64) == crate::board::zone_x(
                b,
                (t - 36) as u64,
            ));
            assert(crate::board::meta_x(b, (t - 36) as u64) == crate::bits::has_line(
                crate::board::zone_x(b, (t - 36) as u64),
            ));
        }
        if 45 <= t < 54 {
            assert(crate::board::zone_o(cells, (t - 45) as u64) == crate::board::zone_o(
                b,
                (t - 45) as u64,
            ));
            assert(crate::board::meta_o(b, (t - 45) as u64) == crate::bits::has_line(
                crate::board::zone_o(b, (t - 45) as u64),
            ));
        }
        if 36 <= t < 45 {
            let z = (t - 36) as u64;
            assert(crate::bits::grid_bit(m, t) == crate::bits::has_line(
                crate::board::zone_x(cells, z),
            ));
            assert(crate::bits::has_line(crate::board::zone_x(b, z)) == crate::board::meta_x(
                b,
                z,
            ));
            crate::board::lemma_shift_compose(b.share, 36, z);
        } else if 45 <= t < 54 {
            let z = (t - 45) as u64;
            assert(crate::bits::grid_bit(m, t) == crate::bits::has_line(
                crate::board::zone_o(cells, z),
            ));
            assert(crate::bits::has_line(crate::board::zone_o(b, z)) == crate::board::meta_o(
                b,
                z,
            ));
            crate::board::lemma_shift_compose(b.share, 45, z);
        } else if 54 <= t < 58 {
            lemma_field_bits(b.share, t);
        }
    }
    lemma_word_eq(fin, b.share);
}

/// Round trip: decoding the text of a well-formed board restores the very
/// same board; the meta bits the decoder recomputes are the ones the
/// board already carried.
pub proof fn lemma_round_trip(b: Board)
    requires
        wf(b),
    ensures
        parse_board(board_str_spec(b)) == Some(b),
{
    let s = board_str_spec(b);
    lemma_expand_rows(b, 9);
    lemma_expand_concat(encode_rows_upto(b, 9) + seq![' '], zone_token(b));
    lemma_expand_concat(encode_rows_upto(b, 9), seq![' ']);
    assert(seq![' '][0] == ' ' && seq![' '].drop_first() =~= Seq::<char>::empty());
    assert(digit_val(' ') == 0);
    assert(expand(seq![' ']) == expand_char(' ') + expand(Seq::<char>::empty()));
    assert(expand(seq![' ']) =~= seq![' ']);
    lemma_zone_token_facts(b);
    lemma_expand_id(zone_token(b));
    lemma_raw_is_rows_from(b);
    lemma_rows_from_len(b, 0);
    assert(expand(s) =~= rows_from(b, 0) + seq![' '] + zone_token(b));
    lemma_tokens_two(rows_from(b, 0), zone_token(b));
    let toks = ws_tokens(expand(s));
    assert(toks == seq![rows_from(b, 0), zone_token(b)]);
    assert(toks[0] == rows_from(b, 0) && toks[1] == zone_token(b));
    lemma_split_rows(b, 0);
    let rows = split_slash(toks[0]);
    assert(rows =~= Seq::new(9, |r: int| row_chars(b, r)));
    assert forall|r: int| 0 <= r < 9 implies #[trigger] rows[r].len() == 9 by {
        lemma_row_chars_plain(b, r);
    }
    if zone_field(b) == ZONE_ANY {
        assert(zone_index(toks[1]) is None && toks[1] == "any"@);
    }
    lemma_decode_inverse(b);
}

} // verus!
