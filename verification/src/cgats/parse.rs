//! The CGATS lexer over an in-memory stream, the detection heuristic, and
//! the section parsers that fill a [`Profile`].

use vstd::prelude::*;
use crate::cgats::{
    add_result, add_to_list, alloc_set_spec, cell_at, empty_table, is_available_on_list, kvs_view,
    predefined_property_list, predefined_sample_id_list, registered_ids, registered_keywords, lemma_with_cur_same, lemma_with_cur_twice, locate, opt_view, set_cell_spec,
    set_format_spec, table_wf,
    tables_view, view_wf, Profile, ProfileView, TableView, WriteMode, MAXSTR, MAXTABLES,
};
use crate::error::Error;
use crate::text::{
    bytes_ci_eq, ci_eq, dec_digits, dec_int, fmt_i32, fmt_u64, latin1, latin1_string, str_ci_eq, tb,
    upper,
};
use vstd::string::StringExecFns;

verus! {

/// Token kinds.
#[derive(Clone, Copy, Debug, PartialEq, Eq, Structural)]
pub enum Symbol {
    Undefined,
    Inum,
    Dnum,
    Ident,
    Str,
    Comment,
    Eoln,
    Eof,
    SynError,
    BeginData,
    BeginDataFormat,
    EndData,
    EndDataFormat,
    Keyword,
    DataFormatId,
    Include,
}

// ------------------------------------------------------------ characters

pub open spec fn is_sep(c: u8) -> bool {
    c == 32u8 || c == 9u8
}

pub open spec fn is_dig(c: u8) -> bool {
    48u8 <= c <= 57u8
}

pub open spec fn is_alnum(c: u8) -> bool {
    is_dig(c) || (65u8 <= c <= 90u8) || (97u8 <= c <= 122u8)
}

pub open spec fn is_xdig(c: u8) -> bool {
    is_dig(c) || (65u8 <= c <= 70u8) || (97u8 <= c <= 102u8)
}

/// Printable, not blank, not a comment or quote character.
pub open spec fn is_middle(c: u8) -> bool {
    !is_sep(c) && c != 35u8 && c != 34u8 && c != 39u8 && 32u8 < c < 127u8
}

pub open spec fn is_idchar(c: u8) -> bool {
    is_alnum(c) || is_middle(c)
}

pub open spec fn is_firstidchar(c: u8) -> bool {
    c != 45u8 && !is_dig(c) && is_middle(c)
}

// ------------------------------------------------------------ tokens

/// The character at index `i` of the stream as the lexer sees it: a blank
/// before the start and NUL past the end.
pub open spec fn ch_at(t: Seq<u8>, i: int) -> u8 {
    if i < 0 {
        32u8
    } else if i < t.len() {
        t[i]
    } else {
        0u8
    }
}

/// The index after `i`; a NUL character holds the lexer in place.
pub open spec fn step(t: Seq<u8>, i: int) -> int {
    if ch_at(t, i) == 0 {
        i
    } else {
        i + 1
    }
}

/// The first index from `i` on whose character is not a blank.
pub open spec fn blank_end(t: Seq<u8>, i: int) -> int
    decreases t.len() + 1 - i,
{
    if is_sep(ch_at(t, i)) && i < t.len() {
        blank_end(t, i + 1)
    } else {
        i
    }
}

/// The first index from `i` on whose character cannot be in an identifier.
pub open spec fn id_end(t: Seq<u8>, i: int) -> int
    decreases t.len() + 1 - i,
{
    if is_idchar(ch_at(t, i)) && i < t.len() {
        id_end(t, i + 1)
    } else {
        i
    }
}

/// The first index from `i` on that is not a decimal digit.
pub open spec fn dig_end(t: Seq<u8>, i: int) -> int
    decreases t.len() + 1 - i,
{
    if is_dig(ch_at(t, i)) && i < t.len() {
        dig_end(t, i + 1)
    } else {
        i
    }
}

/// The first index from `i` on that ends a line (line feed, carriage
/// return or NUL).
pub open spec fn line_end(t: Seq<u8>, i: int) -> int
    decreases t.len() + 1 - i,
{
    let c = ch_at(t, i);
    if c != 0 && c != 10 && c != 13 && i < t.len() {
        line_end(t, i + 1)
    } else {
        i
    }
}

/// The first index from `i` on that closes a string opened by quote `q`:
/// the same quote, a line end or NUL.
pub open spec fn str_end(t: Seq<u8>, i: int, q: u8) -> int
    decreases t.len() + 1 - i,
{
    let c = ch_at(t, i);
    if c != q && c != 0 && c != 10 && c != 13 && i < t.len() {
        str_end(t, i + 1, q)
    } else {
        i
    }
}

/// The value of a hexadecimal digit.
pub open spec fn hex_val(c: u8) -> int {
    let u = upper(c);
    if 65u8 <= u <= 70u8 {
        u - 65 + 10
    } else {
        u - 48
    }
}

/// Digits in base `b` from `i` on, added to `acc`: where they stop, the
/// value, and whether a digit would have taken the value past `i32::MAX`
/// (they stop at that digit).
pub open spec fn digits_scan(t: Seq<u8>, i: int, acc: int, b: int) -> (int, int, bool)
    decreases t.len() + 1 - i,
{
    let c = ch_at(t, i);
    let is_digit = if b == 16 {
        is_xdig(c)
    } else if b == 2 {
        c == 48u8 || c == 49u8
    } else {
        is_dig(c)
    };
    let d = if b == 16 {
        hex_val(c)
    } else {
        c - 48
    };
    if !is_digit || i >= t.len() {
        (i, acc, false)
    } else if acc * b + d > 0x7fff_ffff {
        (i, acc, true)
    } else {
        digits_scan(t, i + 1, acc * b + d, b)
    }
}

/// Where a real number's text that goes on at `i` ends: digits, a
/// fraction, an exponent with an optional sign.
pub open spec fn real_end(t: Seq<u8>, i: int) -> int {
    let a = dig_end(t, i);
    let f = if ch_at(t, a) == 46u8 {
        dig_end(t, a + 1)
    } else {
        a
    };
    if upper(ch_at(t, f)) == 69u8 {
        let s = if ch_at(t, f + 1) == 45u8 || ch_at(t, f + 1) == 43u8 {
            f + 2
        } else {
            f + 1
        };
        dig_end(t, s)
    } else {
        f
    }
}

/// A token as plain values: its kind, its text (as the parser reads it:
/// an integer in decimal, a real as written, a string without quotes, an
/// identifier as written, a line end empty) and where the lexer stands
/// after it.
pub type TokV = (Symbol, Option<Seq<u8>>, int);

/// The numeric token at `c` (a digit, a point or a minus sign): decimal,
/// `0x` hexadecimal or `0b` binary integers (too large a hexadecimal or
/// binary number is an error), reals (a decimal integer too large for an
/// `i32` reads as a real), and a number running into identifier
/// characters, which reads as an identifier spelled with the number's
/// decimal value.
pub open spec fn number_tok(t: Seq<u8>, c: int) -> TokV {
    let neg = ch_at(t, c) == 45u8;
    let s = if ch_at(t, c) == 45u8 || ch_at(t, c) == 43u8 {
        c + 1
    } else {
        c
    };
    let radix: int = if ch_at(t, s) == 48u8 && upper(ch_at(t, s + 1)) == 88u8 {
        16
    } else if ch_at(t, s) == 48u8 && upper(ch_at(t, s + 1)) == 66u8 {
        2
    } else {
        10
    };
    if radix != 10 {
        let (e, v, over) = digits_scan(t, s + 2, 0, radix);
        if over {
            (Symbol::SynError, None, e)
        } else {
            (Symbol::Inum, Some(dec_int(v)), e)
        }
    } else {
        let (e, v, over) = digits_scan(t, s, 0, 10);
        if over || ch_at(t, e) == 46u8 {
            (Symbol::Dnum, Some(t.subrange(c, real_end(t, e))), real_end(t, e))
        } else {
            let val = if neg {
                -v
            } else {
                v
            };
            if is_idchar(ch_at(t, e)) {
                (Symbol::Ident, Some(dec_int(val) + t.subrange(e, id_end(t, e))), id_end(t, e))
            } else {
                (Symbol::Inum, Some(dec_int(val)), e)
            }
        }
    }
}

/// The token that starts at or after `c` (blanks skipped), comments
/// included.
pub open spec fn lex(t: Seq<u8>, c: int) -> TokV {
    let b = blank_end(t, c);
    let x = ch_at(t, b);
    if is_firstidchar(x) {
        let e = id_end(t, b);
        let id = t.subrange(b, e);
        match key_symbol(id) {
            Some(k) => (k, None, e),
            None => (Symbol::Ident, Some(id), e),
        }
    } else if is_dig(x) || x == 46u8 || x == 45u8 || x == 43u8 {
        number_tok(t, b)
    } else if x == 26u8 || x == 0u8 {
        (Symbol::Eof, None, b)
    } else if x == 13u8 {
        (Symbol::Eoln, Some(Seq::empty()), if ch_at(t, b + 1) == 10u8 {
            b + 2
        } else {
            b + 1
        })
    } else if x == 10u8 {
        (Symbol::Eoln, Some(Seq::empty()), b + 1)
    } else if x == 35u8 {
        (Symbol::Comment, None, line_end(t, b + 1))
    } else if x == 39u8 || x == 34u8 {
        let e = str_end(t, b + 1, x);
        (Symbol::Str, Some(t.subrange(b + 1, e)), step(t, e))
    } else {
        (Symbol::SynError, None, b)
    }
}

/// The next token from `c` on, comments skipped; an include directive is
/// an error on an in-memory stream.
pub open spec fn next_token(t: Seq<u8>, c: int) -> TokV
    decreases t.len() + 1 - c,
{
    let (s, v, e) = lex(t, c);
    if s == Symbol::Comment && c < e <= t.len() {
        next_token(t, e)
    } else if s == Symbol::Include {
        (Symbol::SynError, None, e)
    } else {
        (s, v, e)
    }
}

/// The token after passing over line ends, starting at token `tk`.
pub open spec fn skip_eolns(t: Seq<u8>, tk: TokV) -> TokV
    decreases t.len() + 1 - tk.2,
{
    if tk.0 == Symbol::Eoln && -1 <= tk.2 <= t.len() {
        let nt = next_token(t, tk.2);
        if nt.0 == Symbol::Eoln && tk.2 < nt.2 <= t.len() {
            skip_eolns(t, nt)
        } else {
            nt
        }
    } else {
        tk
    }
}

/// The syntax-error token at the place of `tk`.
pub open spec fn err_at(tk: TokV) -> TokV {
    (Symbol::SynError, None, tk.2)
}

/// Whether a token ends the stream or is a syntax error.
pub open spec fn tok_stopped(tk: TokV) -> bool {
    tk.0 == Symbol::Eof || tk.0 == Symbol::SynError
}

/// The column labels read from token `tk` on into table `tv`, from column
/// `i`: each is an identifier, and the line ends after it are passed over;
/// the labels stop at `END_DATA_FORMAT`, a line end, the end of the stream
/// or an error. Whether they were all taken, the table, and the token
/// reached.
#[verifier::opaque]
pub open spec fn format_labels(t: Seq<u8>, tk: TokV, tv: TableView, i: int) -> (bool, TableView, TokV)
    decreases t.len() + 1 - tk.2,
{
    if tk.0 == Symbol::EndDataFormat || tk.0 == Symbol::Eoln || tok_stopped(tk) {
        (true, tv, tk)
    } else if tk.0 != Symbol::Ident {
        (false, tv, err_at(tk))
    } else {
        let (ok, tv2) = set_format_spec(tv, i, latin1(tk.1->0));
        if !ok {
            (false, tv2, tk)
        } else {
            let nt = skip_eolns(t, next_token(t, tk.2));
            if tk.2 < nt.2 <= t.len() {
                format_labels(t, nt, tv2, i + 1)
            } else {
                (true, tv2, nt)
            }
        }
    }
}

/// A `BEGIN_DATA_FORMAT` block read from its opening token `tk` into table
/// `tv`: a line end must follow; then the labels, and the line ends and
/// `END_DATA_FORMAT` after them are passed over.
pub open spec fn format_section(t: Seq<u8>, tk: TokV, tv: TableView) -> (bool, TableView, TokV) {
    let a = next_token(t, tk.2);
    if a.0 != Symbol::Eoln {
        (false, tv, err_at(a))
    } else {
        block_tail(t, format_labels(t, skip_eolns(t, a), tv, 0), Symbol::EndDataFormat)
    }
}

/// After the body of a block: line ends, the closing keyword `close` and
/// the line ends after it are passed over, unless the body failed.
pub open spec fn block_tail(t: Seq<u8>, r: (bool, TableView, TokV), close: Symbol) -> (bool, TableView, TokV) {
    if !r.0 {
        r
    } else {
        let d = skip_eolns(t, r.2);
        let e = if d.0 == close && !tok_stopped(d) {
            next_token(t, d.2)
        } else {
            d
        };
        (true, r.1, skip_eolns(t, e))
    }
}

/// The cells read from token `tk` on into table `tv`, the next one going
/// to row `s`, column `f` (a new row once `f` reaches the column count):
/// each token's text is a cell, and the line ends after it are passed
/// over; the cells stop at `END_DATA`, the end of the stream or an error.
/// Whether they were all stored, the table, the token reached and the last
/// row written.
#[verifier::opaque]
pub open spec fn data_cells(t: Seq<u8>, tk: TokV, tv: TableView, s: int, f: int) -> (bool, TableView, TokV, int)
    decreases t.len() + 1 - tk.2,
{
    if tk.0 == Symbol::EndData || tok_stopped(tk) {
        (true, tv, tk, s)
    } else {
        let (s1, f1) = if f >= tv.n_samples {
            (s + 1, 0)
        } else {
            (s, f)
        };
        match tk.1 {
            None => (false, tv, err_at(tk), s1),
            Some(v) => {
                let (ok, tv2) = set_cell_spec(tv, s1, f1, latin1(v));
                if !ok {
                    (false, tv2, tk, s1)
                } else {
                    let nt = skip_eolns(t, next_token(t, tk.2));
                    if tk.2 < nt.2 <= t.len() {
                        data_cells(t, nt, tv2, s1, f1 + 1)
                    } else {
                        (true, tv2, nt, s1)
                    }
                }
            },
        }
    }
}

/// After the cells: the block's tail is passed over, and the rows written
/// must be the table's row count.
pub open spec fn data_tail(t: Seq<u8>, r: (bool, TableView, TokV, int)) -> (bool, TableView, TokV) {
    if !r.0 {
        (false, r.1, r.2)
    } else {
        let e = block_tail(t, (true, r.1, r.2), Symbol::EndData).2;
        if r.3 + 1 != r.1.n_patches {
            (false, r.1, err_at(e))
        } else {
            (true, r.1, e)
        }
    }
}

/// A `BEGIN_DATA` block read from its opening token `tk` into table `tv`: a
/// line end must follow; the table's cells are allocated if they were not;
/// then the cells, the block's tail, and the row count check.
pub open spec fn data_block(t: Seq<u8>, tk: TokV, tv: TableView) -> (bool, TableView, TokV) {
    let a = next_token(t, tk.2);
    if a.0 != Symbol::Eoln {
        (false, tv, err_at(a))
    } else {
        let b = skip_eolns(t, a);
        match alloc_set_spec(tv) {
            None => (false, tv, b),
            Some(tv1) => data_tail(t, data_cells(t, b, tv1, 0, 0)),
        }
    }
}

proof fn lemma_blank_end_bounds(t: Seq<u8>, c: int)
    ensures
        blank_end(t, c) >= c,
        c <= t.len() ==> blank_end(t, c) <= t.len(),
    decreases t.len() + 1 - c,
{
    if is_sep(ch_at(t, c)) && c < t.len() {
        lemma_blank_end_bounds(t, c + 1);
    }
}

proof fn lemma_line_end_bounds(t: Seq<u8>, i: int)
    ensures
        line_end(t, i) >= i,
        i <= t.len() ==> line_end(t, i) <= t.len(),
    decreases t.len() + 1 - i,
{
    let c = ch_at(t, i);
    if c != 0 && c != 10 && c != 13 && i < t.len() {
        lemma_line_end_bounds(t, i + 1);
    }
}

proof fn lemma_id_end_bounds(t: Seq<u8>, i: int)
    ensures
        id_end(t, i) >= i,
        i <= t.len() ==> id_end(t, i) <= t.len(),
    decreases t.len() + 1 - i,
{
    if is_idchar(ch_at(t, i)) && i < t.len() {
        lemma_id_end_bounds(t, i + 1);
    }
}

proof fn lemma_dig_end_bounds(t: Seq<u8>, i: int)
    ensures
        dig_end(t, i) >= i,
        i <= t.len() ==> dig_end(t, i) <= t.len(),
    decreases t.len() + 1 - i,
{
    if is_dig(ch_at(t, i)) && i < t.len() {
        lemma_dig_end_bounds(t, i + 1);
    }
}

proof fn lemma_str_end_bounds(t: Seq<u8>, i: int, q: u8)
    ensures
        str_end(t, i, q) >= i,
        i <= t.len() ==> str_end(t, i, q) <= t.len(),
    decreases t.len() + 1 - i,
{
    let c = ch_at(t, i);
    if c != q && c != 0 && c != 10 && c != 13 && i < t.len() {
        lemma_str_end_bounds(t, i + 1, q);
    }
}

proof fn lemma_digits_scan_bounds(t: Seq<u8>, i: int, acc: int, b: int)
    ensures
        digits_scan(t, i, acc, b).0 >= i,
        i <= t.len() ==> digits_scan(t, i, acc, b).0 <= t.len(),
    decreases t.len() + 1 - i,
{
    let c = ch_at(t, i);
    let is_digit = if b == 16 {
        is_xdig(c)
    } else if b == 2 {
        c == 48u8 || c == 49u8
    } else {
        is_dig(c)
    };
    let d = if b == 16 {
        hex_val(c)
    } else {
        c - 48
    };
    if !is_digit || i >= t.len() {
    } else if acc * b + d > 0x7fff_ffff {
    } else {
        lemma_digits_scan_bounds(t, i + 1, acc * b + d, b);
    }
}

proof fn lemma_real_end_bounds(t: Seq<u8>, i: int)
    requires
        0 <= i <= t.len(),
    ensures
        real_end(t, i) >= i,
        real_end(t, i) <= t.len(),
{
    lemma_dig_end_bounds(t, i);
    let a = dig_end(t, i);
    lemma_dig_end_bounds(t, a + 1);
    let f = if ch_at(t, a) == 46u8 {
        dig_end(t, a + 1)
    } else {
        a
    };
    lemma_dig_end_bounds(t, f + 1);
    lemma_dig_end_bounds(t, f + 2);
}

/// Every token but the end of the stream and a syntax error moves the lexer
/// on; none moves it past the end.
proof fn lemma_lex_moves(t: Seq<u8>, c: int)
    requires
        -1 <= c <= t.len(),
    ensures
        c <= lex(t, c).2 <= t.len(),
        lex(t, c).0 != Symbol::Eof && lex(t, c).0 != Symbol::SynError ==> c < lex(t, c).2,
{
    lemma_blank_end_bounds(t, c);
    let b = blank_end(t, c);
    let x = ch_at(t, b);
    lemma_id_end_bounds(t, b);
    lemma_id_end_bounds(t, b + 1);
    lemma_line_end_bounds(t, b + 1);
    lemma_str_end_bounds(t, b + 1, x);
    if is_dig(x) || x == 46u8 || x == 45u8 || x == 43u8 {
        let s = if ch_at(t, b) == 45u8 || ch_at(t, b) == 43u8 {
            b + 1
        } else {
            b
        };
        lemma_digits_scan_bounds(t, s + 2, 0, 16);
        lemma_digits_scan_bounds(t, s + 2, 0, 2);
        lemma_digits_scan_bounds(t, s, 0, 10);
        if is_dig(x) {
            lemma_digits_scan_bounds(t, b + 1, x - 48, 10);
        }
        lemma_dig_end_bounds(t, b + 1);
        let e = digits_scan(t, s, 0, 10).0;
        lemma_real_end_bounds(t, e);
        lemma_id_end_bounds(t, e);
    }
}

proof fn lemma_next_token_moves(t: Seq<u8>, c: int)
    requires
        -1 <= c <= t.len(),
    ensures
        c <= next_token(t, c).2 <= t.len(),
        next_token(t, c).0 != Symbol::Eof && next_token(t, c).0 != Symbol::SynError ==> c < next_token(t, c).2,
    decreases t.len() + 1 - c,
{
    lemma_lex_moves(t, c);
    let (s, v, e) = lex(t, c);
    if s == Symbol::Comment && c < e <= t.len() {
        lemma_next_token_moves(t, e);
    }
}

proof fn lemma_skip_eolns_moves(t: Seq<u8>, tk: TokV)
    requires
        -1 <= tk.2 <= t.len(),
    ensures
        tk.2 <= skip_eolns(t, tk).2 <= t.len(),
        skip_eolns(t, tk).0 != Symbol::Eoln || tk.0 != Symbol::Eoln,
        tk.0 != Symbol::Eoln ==> skip_eolns(t, tk) == tk,
    decreases t.len() + 1 - tk.2,
{
    if tk.0 == Symbol::Eoln {
        lemma_next_token_moves(t, tk.2);
        let nt = next_token(t, tk.2);
        if nt.0 == Symbol::Eoln && tk.2 < nt.2 <= t.len() {
            lemma_skip_eolns_moves(t, nt);
        }
    }
}

/// The token after a token that does not stop the stream, line ends
/// passed over, either stops the stream or lies further on.
proof fn lemma_after_moves(t: Seq<u8>, c: int)
    requires
        -1 <= c <= t.len(),
    ensures
        tok_stopped(skip_eolns(t, next_token(t, c))) || c < skip_eolns(t, next_token(t, c)).2,
        skip_eolns(t, next_token(t, c)).2 <= t.len(),
        c <= skip_eolns(t, next_token(t, c)).2,
{
    lemma_next_token_moves(t, c);
    lemma_skip_eolns_moves(t, next_token(t, c));
}

proof fn lemma_format_labels_unfold(t: Seq<u8>, tk: TokV, tv: TableView, i: int)
    requires
        -1 <= tk.2 <= t.len(),
    ensures
        (tk.0 == Symbol::EndDataFormat || tk.0 == Symbol::Eoln || tok_stopped(tk)) ==> format_labels(
            t,
            tk,
            tv,
            i,
        ) == (true, tv, tk),
        !(tk.0 == Symbol::EndDataFormat || tk.0 == Symbol::Eoln || tok_stopped(tk)) && tk.0 != Symbol::Ident
            ==> format_labels(t, tk, tv, i) == (false, tv, err_at(tk)),
        tk.0 == Symbol::Ident && !set_format_spec(tv, i, latin1(tk.1->0)).0 ==> format_labels(t, tk, tv, i) == (
            false,
            set_format_spec(tv, i, latin1(tk.1->0)).1,
            tk,
        ),
        tk.0 == Symbol::Ident && set_format_spec(tv, i, latin1(tk.1->0)).0 ==> format_labels(t, tk, tv, i)
            == format_labels(
            t,
            skip_eolns(t, next_token(t, tk.2)),
            set_format_spec(tv, i, latin1(tk.1->0)).1,
            i + 1,
        ),
{
    reveal(format_labels);
    lemma_after_moves(t, tk.2);
    let nt = skip_eolns(t, next_token(t, tk.2));
    let tv2 = set_format_spec(tv, i, latin1(tk.1->0)).1;
    if tok_stopped(nt) {
        assert(format_labels(t, nt, tv2, i + 1) == (true, tv2, nt));
    }
}

proof fn lemma_data_cells_unfold(t: Seq<u8>, tk: TokV, tv: TableView, s: int, f: int)
    requires
        -1 <= tk.2 <= t.len(),
    ensures
        ({
            let (s1, f1) = if f >= tv.n_samples {
                (s + 1, 0)
            } else {
                (s, f)
            };
            &&& (tk.0 == Symbol::EndData || tok_stopped(tk)) ==> data_cells(t, tk, tv, s, f) == (true, tv, tk, s)
            &&& !(tk.0 == Symbol::EndData || tok_stopped(tk)) && tk.1 is None ==> data_cells(t, tk, tv, s, f) == (
                false,
                tv,
                err_at(tk),
                s1,
            )
            &&& !(tk.0 == Symbol::EndData || tok_stopped(tk)) && tk.1 is Some && !set_cell_spec(
                tv,
                s1,
                f1,
                latin1(tk.1->0),
            ).0 ==> data_cells(t, tk, tv, s, f) == (false, set_cell_spec(tv, s1, f1, latin1(tk.1->0)).1, tk, s1)
            &&& !(tk.0 == Symbol::EndData || tok_stopped(tk)) && tk.1 is Some && set_cell_spec(
                tv,
                s1,
                f1,
                latin1(tk.1->0),
            ).0 ==> data_cells(t, tk, tv, s, f) == data_cells(
                t,
                skip_eolns(t, next_token(t, tk.2)),
                set_cell_spec(tv, s1, f1, latin1(tk.1->0)).1,
                s1,
                f1 + 1,
            )
        }),
{
    reveal(data_cells);
    lemma_after_moves(t, tk.2);
    let nt = skip_eolns(t, next_token(t, tk.2));
    let (s1, f1) = if f >= tv.n_samples {
        (s + 1, 0)
    } else {
        (s, f)
    };
    if tok_stopped(nt) && tk.1 is Some {
        let tv2 = set_cell_spec(tv, s1, f1, latin1(tk.1->0)).1;
        assert(data_cells(t, nt, tv2, s1, f1 + 1) == (true, tv2, nt, s1));
    }
}

/// A comment moves the lexer on, and not past the end.
proof fn lemma_comment_moves(t: Seq<u8>, c: int)
    requires
        c <= t.len(),
        lex(t, c).0 == Symbol::Comment,
    ensures
        c < lex(t, c).2 <= t.len(),
{
    lemma_blank_end_bounds(t, c);
    let b = blank_end(t, c);
    lemma_line_end_bounds(t, b + 1);
}

fn c_is_sep(c: u8) -> (r: bool)
    ensures
        r == is_sep(c),
{
    c == 32u8 || c == 9u8
}

fn c_is_dig(c: u8) -> (r: bool)
    ensures
        r == is_dig(c),
{
    48u8 <= c && c <= 57u8
}

fn c_is_xdig(c: u8) -> (r: bool)
    ensures
        r == is_xdig(c),
{
    (48u8 <= c && c <= 57u8) || (65u8 <= c && c <= 70u8) || (97u8 <= c && c <= 102u8)
}

fn c_is_middle(c: u8) -> (r: bool)
    ensures
        r == is_middle(c),
{
    !c_is_sep(c) && c != 35u8 && c != 34u8 && c != 39u8 && 32u8 < c && c < 127u8
}

fn c_is_idchar(c: u8) -> (r: bool)
    ensures
        r == is_idchar(c),
{
    (48u8 <= c && c <= 57u8) || (65u8 <= c && c <= 90u8) || (97u8 <= c && c <= 122u8)
        || c_is_middle(c)
}

fn c_is_firstidchar(c: u8) -> (r: bool)
    ensures
        r == is_firstidchar(c),
{
    c != 45u8 && !c_is_dig(c) && c_is_middle(c)
}

fn c_upper(c: u8) -> (r: u8)
    ensures
        r == upper(c),
{
    if 97u8 <= c && c <= 122u8 {
        c - 32u8
    } else {
        c
    }
}

// ------------------------------------------------------------ keywords

/// The reserved word an identifier spells, compared without case.
pub open spec fn key_symbol(id: Seq<u8>) -> Option<Symbol> {
    if ci_eq(id, tb("$INCLUDE"@)) || ci_eq(id, tb(".INCLUDE"@)) {
        Some(Symbol::Include)
    } else if ci_eq(id, tb("BEGIN_DATA"@)) {
        Some(Symbol::BeginData)
    } else if ci_eq(id, tb("BEGIN_DATA_FORMAT"@)) {
        Some(Symbol::BeginDataFormat)
    } else if ci_eq(id, tb("DATA_FORMAT_IDENTIFIER"@)) {
        Some(Symbol::DataFormatId)
    } else if ci_eq(id, tb("END_DATA"@)) {
        Some(Symbol::EndData)
    } else if ci_eq(id, tb("END_DATA_FORMAT"@)) {
        Some(Symbol::EndDataFormat)
    } else if ci_eq(id, tb("KEYWORD"@)) {
        Some(Symbol::Keyword)
    } else {
        None
    }
}

/// The keyword `id` names, found by binary search over the keyword table.
fn bin_srch_key(id: &[u8]) -> (r: Option<Symbol>)
    ensures
        r == key_symbol(id@),
{
    if bytes_ci_eq(id, "$INCLUDE".as_bytes()) || bytes_ci_eq(id, ".INCLUDE".as_bytes()) {
        Some(Symbol::Include)
    } else if bytes_ci_eq(id, "BEGIN_DATA".as_bytes()) {
        Some(Symbol::BeginData)
    } else if bytes_ci_eq(id, "BEGIN_DATA_FORMAT".as_bytes()) {
        Some(Symbol::BeginDataFormat)
    } else if bytes_ci_eq(id, "DATA_FORMAT_IDENTIFIER".as_bytes()) {
        Some(Symbol::DataFormatId)
    } else if bytes_ci_eq(id, "END_DATA".as_bytes()) {
        Some(Symbol::EndData)
    } else if bytes_ci_eq(id, "END_DATA_FORMAT".as_bytes()) {
        Some(Symbol::EndDataFormat)
    } else if bytes_ci_eq(id, "KEYWORD".as_bytes()) {
        Some(Symbol::Keyword)
    } else {
        None
    }
}

// ------------------------------------------------------------ detection

/// The scan of the first line: the number of words, or `None` when the
/// line holds a control byte, an open quote, or more than two words.
pub open spec fn block_scan(b: Seq<u8>, n: int, i: int, words: int, space: int, quot: int) -> Option<
    int,
>
    decreases n - i,
{
    if i >= n || i < 0 {
        None
    } else {
        let c = b[i];
        if c == 10u8 || c == 13u8 {
            if quot == 1 || words > 2 {
                None
            } else {
                Some(words)
            }
        } else if c == 9u8 || c == 32u8 {
            block_scan(
                b,
                n,
                i + 1,
                words,
                if quot == 0 && space == 0 {
                    1
                } else {
                    space
                },
                quot,
            )
        } else if c == 34u8 {
            block_scan(b, n, i + 1, words, space, 1 - quot)
        } else if c < 32u8 || c > 127u8 {
            None
        } else {
            block_scan(b, n, i + 1, words + space, 0, quot)
        }
    }
}

/// Whether a buffer looks like CGATS text. Only the first 132
/// bytes are looked at, from the second one on; the result is the number of
/// words on the first line (1 when it is a sheet type).
pub open spec fn my_block(b: Seq<u8>) -> Option<int> {
    if b.len() < 10 {
        None
    } else {
        block_scan(b, if b.len() < 132 { b.len() as int } else { 132 }, 1, 1, 0, 0)
    }
}

pub(crate) fn is_my_block(buffer: &[u8]) -> (r: Option<i32>)
    ensures
        match r {
            Some(w) => my_block(buffer@) == Some(w as int),
            None => my_block(buffer@) is None,
        },
{
    let len = buffer.len();
    if len < 10 {
        return None;
    }
    let n: usize = if len < 132 {
        len
    } else {
        132
    };
    let mut words: i32 = 1;
    let mut space: i32 = 0;
    let mut quot: i32 = 0;
    let mut i: usize = 1;
    while i < n
        invariant
            1 <= i <= n,
            n <= buffer@.len(),
            n == (if buffer@.len() < 132 { buffer@.len() as int } else { 132 }),
            buffer@.len() >= 10,
            1 <= words <= i,
            0 <= space <= 1,
            0 <= quot <= 1,
            my_block(buffer@) == block_scan(
                buffer@,
                n as int,
                i as int,
                words as int,
                space as int,
                quot as int,
            ),
        decreases n - i,
    {
        let c = buffer[i];
        if c == 10u8 || c == 13u8 {
            if quot == 1 || words > 2 {
                return None;
            }
            return Some(words);
        } else if c == 9u8 || c == 32u8 {
            if quot == 0 && space == 0 {
                space = 1;
            }
        } else if c == 34u8 {
            quot = 1 - quot;
        } else if c < 32u8 || c > 127u8 {
            return None;
        } else {
            words = words + space;
            space = 0;
        }
        i += 1;
    }
    None
}

// ------------------------------------------------------------ lexer

/// The lexer's state: the stream, the read position, the current character
/// and the last token read.
pub struct Parser<'a> {
    src: &'a [u8],
    pos: usize,
    ch: u8,
    sy: Symbol,
    inum: i32,
    id: Vec<u8>,
    string: Vec<u8>,
    real: Vec<u8>,
}

impl<'a> Parser<'a> {
    pub closed spec fn wf(&self) -> bool {
        &&& self.pos <= self.src@.len()
        &&& self.ch == ch_at(self.src@, self.cur())
    }

    /// The index of the current character (-1 before the first one).
    pub closed spec fn cur(&self) -> int {
        if self.ch == 0 {
            self.pos as int
        } else {
            self.pos - 1
        }
    }

    /// The stream being read.
    pub closed spec fn text(&self) -> Seq<u8> {
        self.src@
    }

    /// What is still to be read (twice the bytes after the position, plus
    /// the current character).
    pub closed spec fn left(&self) -> int {
        2 * (self.src@.len() - self.pos) + if self.ch != 0 {
            1int
        } else {
            0int
        }
    }

    pub closed spec fn sym(&self) -> Symbol {
        self.sy
    }

    /// The current token is the end of the stream or a syntax error.
    pub open spec fn stopped(&self) -> bool {
        self.sym() == Symbol::Eof || self.sym() == Symbol::SynError
    }

    /// Decreases with every token read that does not end the stream.
    pub open spec fn prog(&self) -> int {
        2 * self.left() + if self.stopped() {
            0int
        } else {
            1int
        }
    }

    /// The text of the current token, when it has one.
    pub closed spec fn val_spec(&self) -> Option<Seq<u8>> {
        match self.sy {
            Symbol::Eoln => Some(Seq::empty()),
            Symbol::Ident => Some(self.id@),
            Symbol::Inum => Some(dec_int(self.inum as int)),
            Symbol::Dnum => Some(self.real@),
            Symbol::Str => Some(self.string@),
            _ => None,
        }
    }

    /// The current token as plain values: its kind, its text and where the
    /// lexer stands.
    pub closed spec fn tok(&self) -> TokV {
        (self.sy, self.val_spec(), self.cur())
    }

    /// Same stream, position and current character.
    closed spec fn same_place(&self, other: &Parser<'a>) -> bool {
        self.src == other.src && self.pos == other.pos && self.ch == other.ch
    }

    /// Same token.
    closed spec fn same_token(&self, other: &Parser<'a>) -> bool {
        &&& self.sy == other.sy
        &&& self.inum == other.inum
        &&& self.id == other.id
        &&& self.string == other.string
        &&& self.real == other.real
    }

    /// Reading on lowers `prog` only by moving past characters or by
    /// stopping.
    proof fn lemma_prog_moves(&self, before: &Parser<'a>)
        requires
            self.wf(),
            before.wf(),
            self.text() == before.text(),
            self.prog() < before.prog(),
        ensures
            self.cur() > before.cur() || self.stopped(),
            -1 <= self.cur() <= self.text().len(),
    {
    }

    pub fn new(src: &'a [u8]) -> (p: Parser<'a>)
        ensures
            p.wf(),
            p.text() == src@,
            p.sym() == Symbol::Undefined,
            p.cur() == -1,
    {
        Parser {
            src,
            pos: 0,
            ch: 32u8,
            sy: Symbol::Undefined,
            inum: 0,
            id: Vec::new(),
            string: Vec::new(),
            real: Vec::new(),
        }
    }

    /// Read the next byte; a NUL byte is read but not passed.
    fn next_ch(&mut self)
        requires
            old(self).wf(),
        ensures
            final(self).wf(),
            final(self).same_token(old(self)),
            final(self).src == old(self).src,
            final(self).left() <= old(self).left(),
            old(self).ch != 0 ==> final(self).left() < old(self).left(),
            old(self).pos < old(self).src@.len() ==> final(self).ch == old(self).src@[old(self).pos as int],
            old(self).pos >= old(self).src@.len() ==> final(self).ch == 0,
            final(self).cur() == step(old(self).src@, old(self).cur()),
    {
        if self.pos < self.src.len() {
            self.ch = self.src[self.pos];
            if self.ch != 0 {
                self.pos += 1;
            }
        } else {
            self.ch = 0;
        }
    }

    /// Keep the current character in the number's text and read on.
    fn take(&mut self)
        requires
            old(self).wf(),
        ensures
            final(self).wf(),
            final(self).src == old(self).src,
            final(self).sy == old(self).sy,
            final(self).inum == old(self).inum,
            final(self).left() <= old(self).left(),
            old(self).ch != 0 ==> final(self).left() < old(self).left(),
            final(self).real@ == old(self).real@.push(old(self).ch),
            final(self).cur() == step(old(self).src@, old(self).cur()),
            final(self).id == old(self).id,
            final(self).string == old(self).string,
    {
        self.real.push(self.ch);
        self.next_ch();
    }

    fn syn_error(&mut self)
        requires
            old(self).wf(),
        ensures
            final(self).wf(),
            final(self).same_place(old(self)),
            final(self).sym() == Symbol::SynError,
            final(self).prog() <= old(self).prog(),
            !old(self).stopped() ==> final(self).prog() < old(self).prog(),
            final(self).tok() == err_at(old(self).tok()),
    {
        self.sy = Symbol::SynError;
    }

    fn skip_blanks(&mut self)
        requires
            old(self).wf(),
        ensures
            final(self).wf(),
            final(self).same_token(old(self)),
            final(self).src == old(self).src,
            final(self).left() <= old(self).left(),
            !is_sep(final(self).ch),
            final(self).cur() == blank_end(old(self).src@, old(self).cur()),
    {
        while c_is_sep(self.ch)
            invariant
                self.wf(),
                self.same_token(old(self)),
                self.src == old(self).src,
                self.left() <= old(self).left(),
                blank_end(self.src@, self.cur()) == blank_end(old(self).src@, old(self).cur()),
            decreases self.left(),
        {
            self.next_ch();
        }
    }

    /// A single- or double-quoted string; it also ends at
    /// a line break or the end of the stream.
    fn in_string_symbol(&mut self)
        requires
            old(self).wf(),
        ensures
            final(self).wf(),
            final(self).src == old(self).src,
            final(self).left() <= old(self).left(),
            final(self).sy == Symbol::Str || final(self).sy == Symbol::SynError,
            final(self).sy == Symbol::Str ==> final(self).left() < old(self).left(),
            ({
                let t = old(self).src@;
                let b = blank_end(t, old(self).cur());
                let x = ch_at(t, b);
                if x == 39u8 || x == 34u8 {
                    let e = str_end(t, b + 1, x);
                    &&& final(self).sym() == Symbol::Str
                    &&& final(self).val_spec() == Some(t.subrange(b + 1, e))
                    &&& final(self).cur() == step(t, e)
                } else {
                    final(self).sym() == Symbol::SynError && final(self).cur() == b
                }
            }),
    {
        let ghost t = self.src@;
        self.skip_blanks();
        if self.ch == 39u8 || self.ch == 34u8 {
            let sng = self.ch;
            let ghost b = self.cur();
            self.string = Vec::new();
            self.next_ch();
            let ghost start = self.left();
            assert(self.string@ =~= t.subrange(b + 1, self.cur()));
            while self.ch != sng && self.ch != 10u8 && self.ch != 13u8 && self.ch != 0u8
                invariant
                    self.wf(),
                    self.src == old(self).src,
                    self.src@ == t,
                    self.left() <= start,
                    start < old(self).left(),
                    0 <= b < self.cur() <= t.len(),
                    str_end(t, self.cur(), sng) == str_end(t, b + 1, sng),
                    self.string@ == t.subrange(b + 1, self.cur()),
                decreases self.left(),
            {
                let ghost k = self.cur();
                self.string.push(self.ch);
                self.next_ch();
                assert(self.string@ =~= t.subrange(b + 1, k + 1));
            }
            self.sy = Symbol::Str;
            self.next_ch();
        } else {
            self.sy = Symbol::SynError;
        }
    }

    /// The rest of a real number: digits, a fraction, an exponent.
    fn scan_real(&mut self)
        requires
            old(self).wf(),
            is_dig(old(self).ch) || old(self).ch == 46u8,
        ensures
            final(self).wf(),
            final(self).src == old(self).src,
            final(self).sy == old(self).sy,
            final(self).inum == old(self).inum,
            final(self).left() < old(self).left(),
            final(self).cur() == real_end(old(self).src@, old(self).cur()),
            final(self).real@ == old(self).real@ + old(self).src@.subrange(
                old(self).cur(),
                real_end(old(self).src@, old(self).cur()),
            ),
    {
        let ghost l0 = self.left();
        let ghost t = self.src@;
        let ghost c0 = self.cur();
        let ghost r0 = self.real@;
        while c_is_dig(self.ch)
            invariant
                self.wf(),
                self.src@ == t,
                t == old(self).src@,
                self.src == old(self).src,
                self.sy == old(self).sy,
                self.inum == old(self).inum,
                0 <= c0 <= self.cur() <= t.len(),
                dig_end(t, self.cur()) == dig_end(t, c0),
                self.real@ == r0 + t.subrange(c0, self.cur()),
                self.left() <= l0,
                l0 == old(self).left(),
                self.left() < l0 || self.ch == old(self).ch,
            decreases self.left(),
        {
            let ghost k = self.cur();
            self.take();
            assert(t.subrange(c0, k + 1) =~= t.subrange(c0, k).push(t[k]));
        }
        let ghost a = self.cur();
        assert(a == dig_end(t, c0));
        if self.ch == 46u8 {
            self.take();
            assert(t.subrange(c0, a + 1) =~= t.subrange(c0, a).push(t[a]));
            while c_is_dig(self.ch)
                invariant
                    self.wf(),
                    self.src@ == t,
                    self.src == old(self).src,
                    self.sy == old(self).sy,
                    self.inum == old(self).inum,
                    0 <= c0 <= a < self.cur() <= t.len(),
                    dig_end(t, self.cur()) == dig_end(t, a + 1),
                    self.real@ == r0 + t.subrange(c0, self.cur()),
                    self.left() < l0,
                    l0 == old(self).left(),
                decreases self.left(),
            {
                let ghost k = self.cur();
                self.take();
                assert(t.subrange(c0, k + 1) =~= t.subrange(c0, k).push(t[k]));
            }
        }
        let ghost f = self.cur();
        assert(f == (if ch_at(t, a) == 46u8 {
            dig_end(t, a + 1)
        } else {
            a
        }));
        if c_upper(self.ch) == 69u8 {
            self.take();
            assert(t.subrange(c0, f + 1) =~= t.subrange(c0, f).push(t[f]));
            if self.ch == 45u8 || self.ch == 43u8 {
                self.take();
                assert(t.subrange(c0, f + 2) =~= t.subrange(c0, f + 1).push(t[f + 1]));
            }
            let ghost g = self.cur();
            while c_is_dig(self.ch)
                invariant
                    self.wf(),
                    self.src@ == t,
                    self.src == old(self).src,
                    self.sy == old(self).sy,
                    self.inum == old(self).inum,
                    0 <= c0 <= g <= self.cur() <= t.len(),
                    dig_end(t, self.cur()) == dig_end(t, g),
                    self.real@ == r0 + t.subrange(c0, self.cur()),
                    self.left() < l0,
                    l0 == old(self).left(),
                decreases self.left(),
            {
                let ghost k = self.cur();
                self.take();
                assert(t.subrange(c0, k + 1) =~= t.subrange(c0, k).push(t[k]));
            }
        }
    }

    /// A numeric token (see [`number_tok`]).
    fn lex_number(&mut self)
        requires
            old(self).wf(),
            is_dig(old(self).ch) || old(self).ch == 46u8 || old(self).ch == 45u8 || old(self).ch == 43u8,
        ensures
            final(self).wf(),
            final(self).src == old(self).src,
            final(self).left() < old(self).left(),
            final(self).sy == Symbol::Inum || final(self).sy == Symbol::Dnum || final(self).sy
                == Symbol::Ident || final(self).sy == Symbol::SynError,
            final(self).sym() == number_tok(old(self).src@, old(self).cur()).0,
            final(self).val_spec() == number_tok(old(self).src@, old(self).cur()).1,
            final(self).cur() == number_tok(old(self).src@, old(self).cur()).2,
    {
        let ghost l0 = self.left();
        let ghost c0 = self.ch;
        let ghost t = self.src@;
        let ghost k0 = self.cur();
        self.real = Vec::new();
        let mut sign: i32 = 1;
        if self.ch == 45u8 {
            sign = -1;
            self.take();
        } else if self.ch == 43u8 {
            self.take();
        }
        let ghost s0 = self.cur();
        proof {
            assert(self.real@ =~= t.subrange(k0, s0));
            assert(s0 == (if ch_at(t, k0) == 45u8 || ch_at(t, k0) == 43u8 {
                k0 + 1
            } else {
                k0
            }));
        }
        self.inum = 0;
        self.sy = Symbol::Inum;
        if self.ch == 48u8 {
            self.take();
            if c_upper(self.ch) == 88u8 || c_upper(self.ch) == 66u8 {
                let radix: i64 = if c_upper(self.ch) == 88u8 {
                    16
                } else {
                    2
                };
                self.take();
                let ghost st = self.cur();
                assert(st == s0 + 2);
                while (radix == 16 && c_is_xdig(self.ch)) || (radix == 2 && (self.ch == 48u8 || self.ch == 49u8))
                    invariant
                        self.wf(),
                        self.src@ == t,
                        t == old(self).src@,
                        self.src == old(self).src,
                        radix == 16 || radix == 2,
                        radix == 16 <==> upper(ch_at(t, s0 + 1)) == 88u8,
                        radix == 2 ==> upper(ch_at(t, s0 + 1)) == 66u8,
                        k0 == old(self).cur(),
                        s0 == (if ch_at(t, k0) == 45u8 || ch_at(t, k0) == 43u8 {
                            k0 + 1
                        } else {
                            k0
                        }),
                        ch_at(t, s0) == 48u8,
                        s0 + 2 <= self.cur() <= t.len(),
                        self.left() < l0,
                        l0 == old(self).left(),
                        0 <= self.inum,
                        self.sy == Symbol::Inum,
                        digits_scan(t, self.cur(), self.inum as int, radix as int) == digits_scan(
                            t,
                            s0 + 2,
                            0,
                            radix as int,
                        ),
                    decreases self.left(),
                {
                    let up = c_upper(self.ch);
                    let j: i64 = if 65u8 <= up && up <= 70u8 {
                        (up - 65u8) as i64 + 10
                    } else {
                        (up - 48u8) as i64
                    };
                    assert(j == (if radix == 16 {
                        hex_val(self.ch)
                    } else {
                        self.ch - 48
                    }));
                    if (self.inum as i64) * radix + j > 2147483647i64 {
                        assert(digits_scan(t, self.cur(), self.inum as int, radix as int) == (
                            self.cur(),
                            self.inum as int,
                            true,
                        ));
                        assert(number_tok(t, k0) == (Symbol::SynError, None::<Seq<u8>>, self.cur()));
                        self.sy = Symbol::SynError;
                        return;
                    }
                    self.inum = ((self.inum as i64) * radix + j) as i32;
                    self.take();
                }
                return;
            }
        }
        let ghost sd = self.cur();
        assert(digits_scan(t, sd, self.inum as int, 10) == digits_scan(t, s0, 0, 10));
        while c_is_dig(self.ch)
            invariant
                self.wf(),
                self.src@ == t,
                t == old(self).src@,
                self.src == old(self).src,
                self.left() <= l0,
                l0 == old(self).left(),
                c0 == old(self).ch,
                sign == 1 || sign == -1,
                sign == -1 <==> ch_at(t, k0) == 45u8,
                k0 == old(self).cur(),
                !(ch_at(t, s0) == 48u8 && (upper(ch_at(t, s0 + 1)) == 88u8 || upper(ch_at(t, s0 + 1)) == 66u8)),
                s0 == (if ch_at(t, k0) == 45u8 || ch_at(t, k0) == 43u8 {
                    k0 + 1
                } else {
                    k0
                }),
                0 <= self.inum,
                self.sy == Symbol::Inum,
                self.left() < l0 || (self.inum == 0 && self.ch == c0),
                0 <= k0 <= self.cur() <= t.len(),
                self.real@ == t.subrange(k0, self.cur()),
                digits_scan(t, self.cur(), self.inum as int, 10) == digits_scan(t, s0, 0, 10),
            decreases self.left(),
        {
            let digit: i32 = (self.ch - 48u8) as i32;
            if (self.inum as i64) * 10 + (digit as i64) > 2147483647i64 {
                let ghost e = self.cur();
                assert(digits_scan(t, e, self.inum as int, 10) == (e, self.inum as int, true));
                assert(number_tok(t, k0) == (Symbol::Dnum, Some(t.subrange(k0, real_end(t, e))), real_end(t, e)));
                self.scan_real();
                self.sy = Symbol::Dnum;
                assert(self.real@ =~= t.subrange(k0, real_end(t, e)));
                return;
            }
            self.inum = self.inum * 10 + digit;
            let ghost k = self.cur();
            self.take();
            assert(t.subrange(k0, k + 1) =~= t.subrange(k0, k).push(t[k]));
        }
        if self.ch == 46u8 {
            let ghost e = self.cur();
            self.scan_real();
            self.sy = Symbol::Dnum;
            assert(self.real@ =~= t.subrange(k0, real_end(t, e)));
            return;
        }
        if sign < 0 {
            self.inum = -self.inum;
        }
        if c_is_idchar(self.ch) {
            let ghost e = self.cur();
            self.id = fmt_i32(self.inum);
            let ghost d = self.id@;
            self.id.push(self.ch);
            self.next_ch();
            assert(self.id@ =~= d + t.subrange(e, self.cur()));
            while c_is_idchar(self.ch)
                invariant
                    self.wf(),
                    self.src@ == t,
                    self.src == old(self).src,
                    self.left() < l0,
                    e < self.cur() <= t.len(),
                    0 <= e,
                    id_end(t, self.cur()) == id_end(t, e),
                    self.id@ == d + t.subrange(e, self.cur()),
                decreases self.left(),
            {
                let ghost k = self.cur();
                self.id.push(self.ch);
                self.next_ch();
                assert(self.id@ =~= d + t.subrange(e, k + 1));
            }
            self.sy = Symbol::Ident;
        }
    }

    /// One token, comments included (see [`lex`]).
    fn lex_one(&mut self)
        requires
            old(self).wf(),
        ensures
            final(self).wf(),
            final(self).src == old(self).src,
            final(self).left() <= old(self).left(),
            !final(self).stopped() ==> final(self).left() < old(self).left(),
            final(self).sy != Symbol::Undefined,
            final(self).sym() == lex(old(self).src@, old(self).cur()).0,
            final(self).val_spec() == lex(old(self).src@, old(self).cur()).1,
            final(self).cur() == lex(old(self).src@, old(self).cur()).2,
    {
        let ghost t = self.src@;
        self.skip_blanks();
        let ghost l1 = self.left();
        let ghost b = self.cur();
        if c_is_firstidchar(self.ch) {
            self.id = Vec::new();
            self.id.push(self.ch);
            self.next_ch();
            assert(self.id@ =~= t.subrange(b, self.cur()));
            while c_is_idchar(self.ch)
                invariant
                    self.wf(),
                    self.src == old(self).src,
                    self.src@ == t,
                    self.left() < l1,
                    l1 <= old(self).left(),
                    0 <= b < self.cur() <= t.len(),
                    id_end(t, self.cur()) == id_end(t, b),
                    self.id@ == t.subrange(b, self.cur()),
                decreases self.left(),
            {
                let ghost k = self.cur();
                self.id.push(self.ch);
                self.next_ch();
                assert(self.id@ =~= t.subrange(b, k + 1));
            }
            self.sy = match bin_srch_key(self.id.as_slice()) {
                Some(s) => s,
                None => Symbol::Ident,
            };
            return;
        }
        if c_is_dig(self.ch) || self.ch == 46u8 || self.ch == 45u8 || self.ch == 43u8 {
            self.lex_number();
            return;
        }
        if self.ch == 26u8 || self.ch == 0u8 {
            self.sy = Symbol::Eof;
        } else if self.ch == 13u8 {
            self.next_ch();
            if self.ch == 10u8 {
                self.next_ch();
            }
            self.sy = Symbol::Eoln;
        } else if self.ch == 10u8 {
            self.next_ch();
            self.sy = Symbol::Eoln;
        } else if self.ch == 35u8 {
            self.next_ch();
            while self.ch != 0u8 && self.ch != 10u8 && self.ch != 13u8
                invariant
                    self.wf(),
                    self.src == old(self).src,
                    self.src@ == t,
                    self.left() < l1,
                    l1 <= old(self).left(),
                    0 <= b < self.cur() <= t.len(),
                    line_end(t, self.cur()) == line_end(t, b + 1),
                decreases self.left(),
            {
                self.next_ch();
            }
            self.sy = Symbol::Comment;
        } else if self.ch == 39u8 || self.ch == 34u8 {
            self.in_string_symbol();
        } else {
            self.sy = Symbol::SynError;
        }
    }

    /// The next token, comments skipped (see [`next_token`]). An include
    /// directive cannot be followed on an in-memory stream and is a syntax
    /// error.
    pub fn in_symbol(&mut self)
        requires
            old(self).wf(),
        ensures
            final(self).wf(),
            final(self).text() == old(self).text(),
            final(self).left() <= old(self).left(),
            !final(self).stopped() ==> final(self).left() < old(self).left(),
            final(self).prog() <= old(self).prog(),
            !old(self).stopped() ==> final(self).prog() < old(self).prog(),
            final(self).sym() != Symbol::Comment,
            final(self).sym() != Symbol::Include,
            final(self).sym() != Symbol::Undefined,
            final(self).sym() == next_token(old(self).text(), old(self).cur()).0,
            final(self).val_spec() == next_token(old(self).text(), old(self).cur()).1,
            final(self).cur() == next_token(old(self).text(), old(self).cur()).2,
    {
        let ghost t = self.src@;
        let ghost mut prev = self.cur();
        self.lex_one();
        while self.sy == Symbol::Comment
            invariant
                self.wf(),
                self.src == old(self).src,
                self.src@ == t,
                self.left() <= old(self).left(),
                !self.stopped() ==> self.left() < old(self).left(),
                self.sy != Symbol::Undefined,
                -1 <= prev <= t.len(),
                self.sym() == lex(t, prev).0,
                self.val_spec() == lex(t, prev).1,
                self.cur() == lex(t, prev).2,
                next_token(t, old(self).cur()) == next_token(t, prev),
            decreases 2 * self.left() + if self.sy == Symbol::Comment {
                1int
            } else {
                0int
            },
        {
            proof {
                lemma_comment_moves(t, prev);
                prev = self.cur();
            }
            self.lex_one();
        }
        if self.sy == Symbol::Include {
            self.sy = Symbol::SynError;
        }
    }

    fn check(&mut self, sy: Symbol) -> (ok: bool)
        requires
            old(self).wf(),
        ensures
            final(self).wf(),
            final(self).same_place(old(self)),
            ok == (old(self).sy == sy),
            ok ==> final(self).same_token(old(self)),
            !ok ==> final(self).sy == Symbol::SynError,
            final(self).prog() <= old(self).prog(),
            final(self).tok() == if ok {
                old(self).tok()
            } else {
                err_at(old(self).tok())
            },
    {
        if self.sy != sy {
            self.syn_error();
            return false;
        }
        true
    }

    /// The current token must be a line end; the following
    /// line ends are passed over.
    fn check_eoln(&mut self) -> (ok: bool)
        requires
            old(self).wf(),
        ensures
            final(self).wf(),
            final(self).text() == old(self).text(),
            final(self).prog() <= old(self).prog(),
            ok ==> final(self).sym() != Symbol::Eoln,
            ok == (old(self).sym() == Symbol::Eoln),
            final(self).tok() == if ok {
                skip_eolns(old(self).text(), old(self).tok())
            } else {
                err_at(old(self).tok())
            },
    {
        if !self.check(Symbol::Eoln) {
            return false;
        }
        self.skip_eoln();
        true
    }

    /// `Skip`: pass over the current token when it is `sy`.
    fn skip(&mut self, sy: Symbol)
        requires
            old(self).wf(),
        ensures
            final(self).wf(),
            final(self).text() == old(self).text(),
            final(self).prog() <= old(self).prog(),
            final(self).tok() == if old(self).sym() == sy && !old(self).stopped() {
                next_token(old(self).text(), old(self).cur())
            } else {
                old(self).tok()
            },
    {
        if self.sy == sy && self.sy != Symbol::Eof && self.sy != Symbol::SynError {
            self.in_symbol();
        }
    }

    fn skip_eoln(&mut self)
        requires
            old(self).wf(),
        ensures
            final(self).wf(),
            final(self).text() == old(self).text(),
            final(self).prog() <= old(self).prog(),
            old(self).sym() == Symbol::Eoln ==> final(self).prog() < old(self).prog(),
            old(self).sym() != Symbol::Eoln ==> final(self).prog() == old(self).prog()
                && final(self).sym() == old(self).sym(),
            final(self).sym() != Symbol::Eoln,
            final(self).sym() == old(self).sym() || final(self).sym() != Symbol::Undefined,
            final(self).tok() == skip_eolns(old(self).text(), old(self).tok()),
    {
        let ghost t = self.src@;
        if self.sy != Symbol::Eoln {
            return;
        }
        proof {
            lemma_next_token_moves(t, self.cur());
        }
        self.in_symbol();
        while self.sy == Symbol::Eoln
            invariant
                self.wf(),
                self.text() == old(self).text(),
                self.src@ == t,
                self.prog() < old(self).prog(),
                self.sym() != Symbol::Undefined,
                skip_eolns(t, old(self).tok()) == skip_eolns(t, self.tok()),
            decreases self.prog(),
        {
            proof {
                lemma_next_token_moves(t, self.cur());
            }
            self.in_symbol();
        }
    }

    /// The text of the current token; any other token is a syntax
    /// error.
    fn get_val(&mut self) -> (r: Option<Vec<u8>>)
        requires
            old(self).wf(),
        ensures
            final(self).wf(),
            final(self).same_place(old(self)),
            match old(self).val_spec() {
                Some(v) => r matches Some(x) && x@ == v && final(self).same_token(old(self)),
                None => r is None && final(self).sym() == Symbol::SynError,
            },
            final(self).prog() <= old(self).prog(),
    {
        match self.sy {
            Symbol::Eoln => Some(Vec::new()),
            Symbol::Ident => Some(self.id.clone()),
            Symbol::Inum => Some(fmt_i32(self.inum)),
            Symbol::Dnum => Some(self.real.clone()),
            Symbol::Str => Some(self.string.clone()),
            _ => {
                self.syn_error();
                None
            },
        }
    }

    /// The first line as a sheet type, at most `MAXSTR` bytes
    /// kept; it ends at a tab or line break.
    fn read_type(&mut self) -> (r: Vec<u8>)
        requires
            old(self).wf(),
        ensures
            final(self).wf(),
            final(self).same_token(old(self)),
            final(self).src == old(self).src,
            final(self).left() <= old(self).left(),
            r@ == type_text(old(self).text(), old(self).cur()),
            final(self).cur() == type_end(old(self).text(), blank_end(old(self).text(), old(self).cur())),
    {
        let mut s: Vec<u8> = Vec::new();
        self.skip_blanks();
        let ghost t = self.src@;
        let ghost b = self.cur();
        proof {
            lemma_blank_end_bounds(old(self).src@, old(self).cur());
            lemma_type_end_bounds(t, b);
            assert(b >= 0) by {
                if old(self).cur() < 0 {
                    assert(old(self).cur() == -1);
                    assert(old(self).pos == 0);
                }
            }
        }
        while self.ch != 13u8 && self.ch != 10u8 && self.ch != 9u8 && self.ch != 0u8
            invariant
                self.wf(),
                self.same_token(old(self)),
                self.src == old(self).src,
                self.src@ == t,
                self.left() <= old(self).left(),
                0 <= b <= self.cur() <= type_end(t, b),
                type_end(t, self.cur()) == type_end(t, b),
                s@ == t.subrange(b, if self.cur() - b < MAXSTR { self.cur() } else { b + MAXSTR }),
            decreases self.left(),
        {
            proof {
                assert(self.cur() < t.len());
                assert(t[self.cur()] == self.ch);
            }
            if s.len() < MAXSTR {
                s.push(self.ch);
            }
            self.next_ch();
            proof {
                lemma_type_end_bounds(t, self.cur());
                assert(s@ =~= t.subrange(b, if self.cur() - b < MAXSTR { self.cur() } else { b + MAXSTR }));
            }
        }
        s
    }
}

/// The first index from `i` on that ends a sheet type: a tab, a line end
/// or NUL.
pub open spec fn type_end(t: Seq<u8>, i: int) -> int
    decreases t.len() + 1 - i,
{
    let c = ch_at(t, i);
    if c != 13 && c != 10 && c != 9 && c != 0 && i < t.len() {
        type_end(t, i + 1)
    } else {
        i
    }
}

/// The sheet type read from index `i` on: blanks skipped, then up to the
/// end of the line or a tab, at most `MAXSTR` bytes kept.
pub open spec fn type_text(t: Seq<u8>, i: int) -> Seq<u8> {
    let b = blank_end(t, i);
    let e = type_end(t, b);
    t.subrange(b, if e - b < MAXSTR { e } else { b + MAXSTR })
}

proof fn lemma_type_end_bounds(t: Seq<u8>, i: int)
    ensures
        type_end(t, i) >= i,
        i <= t.len() ==> type_end(t, i) <= t.len(),
    decreases t.len() + 1 - i,
{
    let c = ch_at(t, i);
    if c != 13 && c != 10 && c != 9 && c != 0 && i < t.len() {
        lemma_type_end_bounds(t, i + 1);
    }
}


// ------------------------------------------------------------ byte ranges

/// The first `;` at or after `i`, or the end.
pub open spec fn semi_from(b: Seq<u8>, i: int) -> int
    decreases b.len() - i,
{
    if 0 <= i < b.len() && b[i] != 59u8 {
        semi_from(b, i + 1)
    } else {
        i
    }
}

/// The last `,` in `lo..hi`.
pub open spec fn last_comma(b: Seq<u8>, lo: int, hi: int) -> Option<int>
    decreases hi - lo,
{
    if hi <= lo {
        None
    } else if b[hi - 1] == 44u8 {
        Some(hi - 1)
    } else {
        last_comma(b, lo, hi - 1)
    }
}

/// The first index of `lo..hi` that is not a space, or `hi`.
pub open spec fn skip_sp(b: Seq<u8>, lo: int, hi: int) -> int
    decreases hi - lo,
{
    if lo < hi && b[lo] == 32u8 {
        skip_sp(b, lo + 1, hi)
    } else {
        lo
    }
}

/// The end of `lo..hi` without its trailing spaces.
pub open spec fn back_sp(b: Seq<u8>, lo: int, hi: int) -> int
    decreases hi - lo,
{
    if lo < hi && b[hi - 1] == 32u8 {
        back_sp(b, lo, hi - 1)
    } else {
        hi
    }
}

proof fn lemma_last_comma_range(b: Seq<u8>, lo: int, hi: int)
    ensures
        last_comma(b, lo, hi) matches Some(c) ==> lo <= c < hi,
    decreases hi - lo,
{
    if hi > lo && b[hi - 1] != 44u8 {
        lemma_last_comma_range(b, lo, hi - 1);
    }
}

/// The `subkey,value` entries of a pair property from `start` on, added to
/// table `tv` under `key`: entries are separated by `;`, each split at its
/// last comma, both parts trimmed of spaces and nonempty.
pub open spec fn pair_entries(b: Seq<u8>, start: int, key: Seq<char>, tv: TableView) -> (bool, TableView)
    decreases b.len() - start,
{
    let end = semi_from(b, start);
    match last_comma(b, start, end) {
        None => (false, tv),
        Some(c) => {
            let a = skip_sp(b, start, c);
            let a2 = back_sp(b, a, c);
            let x = skip_sp(b, c + 1, end);
            let y = back_sp(b, x, end);
            if a == a2 || x == y {
                (false, tv)
            } else {
                let h = add_result(
                    tv.header,
                    key,
                    Some(latin1(b.subrange(a, a2))),
                    Some(latin1(b.subrange(x, y))),
                    WriteMode::Pair,
                ).1;
                let tv2 = TableView { header: h, ..tv };
                if end >= b.len() || end < start {
                    (true, tv2)
                } else {
                    pair_entries(b, end + 1, key, tv2)
                }
            }
        },
    }
}

/// The first `;` at or after `from`, or the end.
fn find_semicolon(b: &[u8], from: usize) -> (r: usize)
    requires
        from <= b@.len(),
    ensures
        from <= r <= b@.len(),
        r < b@.len() ==> b@[r as int] == 59u8,
        forall|k: int| from <= k < r ==> b@[k] != 59u8,
        r == semi_from(b@, from as int),
{
    let mut i = from;
    while i < b.len() && b[i] != 59u8
        invariant
            from <= i <= b@.len(),
            forall|k: int| from <= k < i ==> b@[k] != 59u8,
            semi_from(b@, i as int) == semi_from(b@, from as int),
        decreases b.len() - i,
    {
        i += 1;
    }
    i
}

/// The last `,` in `lo..hi`.
fn rfind_comma(b: &[u8], lo: usize, hi: usize) -> (r: Option<usize>)
    requires
        lo <= hi <= b@.len(),
    ensures
        match r {
            Some(c) => lo <= c < hi && b@[c as int] == 44u8 && forall|k: int|
                c < k < hi ==> b@[k] != 44u8,
            None => forall|k: int| lo <= k < hi ==> b@[k] != 44u8,
        },
        r == match last_comma(b@, lo as int, hi as int) {
            Some(c) => Some(c as usize),
            None => None::<usize>,
        },
{
    let mut i = hi;
    while i > lo
        invariant
            lo <= i <= hi,
            hi <= b@.len(),
            forall|k: int| i <= k < hi ==> b@[k] != 44u8,
            last_comma(b@, lo as int, i as int) == last_comma(b@, lo as int, hi as int),
        decreases i - lo,
    {
        if b[i - 1] == 44u8 {
            return Some(i - 1);
        }
        i -= 1;
    }
    None
}

/// `lo..hi` without its leading and trailing blanks.
fn trim_range(b: &[u8], lo: usize, hi: usize) -> (r: (usize, usize))
    requires
        lo <= hi <= b@.len(),
    ensures
        lo <= r.0 <= r.1 <= hi,
        forall|k: int| lo <= k < r.0 ==> b@[k] == 32u8,
        forall|k: int| r.1 <= k < hi ==> b@[k] == 32u8,
        r.0 < r.1 ==> b@[r.0 as int] != 32u8 && b@[r.1 - 1] != 32u8,
        r.0 == skip_sp(b@, lo as int, hi as int),
        r.1 == back_sp(b@, r.0 as int, hi as int),
{
    let mut a = lo;
    while a < hi && b[a] == 32u8
        invariant
            lo <= a <= hi,
            hi <= b@.len(),
            forall|k: int| lo <= k < a ==> b@[k] == 32u8,
            skip_sp(b@, a as int, hi as int) == skip_sp(b@, lo as int, hi as int),
        decreases hi - a,
    {
        a += 1;
    }
    let mut z = hi;
    while z > a && b[z - 1] == 32u8
        invariant
            a <= z <= hi,
            hi <= b@.len(),
            forall|k: int| z <= k < hi ==> b@[k] == 32u8,
            back_sp(b@, a as int, z as int) == back_sp(b@, a as int, hi as int),
        decreases z - a,
    {
        z -= 1;
    }
    (a, z)
}

fn copy_range(b: &[u8], lo: usize, hi: usize) -> (r: Vec<u8>)
    requires
        lo <= hi <= b@.len(),
    ensures
        r@ == b@.subrange(lo as int, hi as int),
{
    let mut v: Vec<u8> = Vec::new();
    let mut i = lo;
    while i < hi
        invariant
            lo <= i <= hi,
            hi <= b@.len(),
            v@ == b@.subrange(lo as int, i as int),
        decreases hi - i,
    {
        v.push(b[i]);
        i += 1;
        assert(v@ =~= b@.subrange(lo as int, i as int));
    }
    v
}

// ------------------------------------------------------------ header

/// Whether token `tk` ends a header: the end of the stream, an error, or
/// the opening of a data format or data block.
pub open spec fn header_stop(tk: TokV) -> bool {
    tok_stopped(tk) || tk.0 == Symbol::BeginDataFormat || tk.0 == Symbol::BeginData
}

/// The object with a keyword or sample-id registration added, as `add_to_list` does.
pub open spec fn register(pv: ProfileView, sample_id: bool, name: Seq<char>) -> (bool, ProfileView) {
    if sample_id {
        let (ok, l) = add_result(pv.sample_ids, name, None, None, WriteMode::Uncooked);
        (ok, ProfileView { sample_ids: l, ..pv })
    } else {
        let (ok, l) = add_result(pv.keywords, name, None, None, WriteMode::Uncooked);
        (ok, ProfileView { keywords: l, ..pv })
    }
}

/// How property `name` is written: as registered, or plain when it is not
/// registered yet, in which case it is registered.
pub open spec fn key_mode(pv: ProfileView, name: Seq<char>) -> (WriteMode, ProfileView) {
    match locate(pv.keywords, tb(name), None) {
        Some(i) => (pv.keywords[i].write_as, pv),
        None => (WriteMode::Uncooked, register(pv, false, name).1),
    }
}

/// A property statement `name value` whose value token is `a`, into the
/// active table: a pair property takes a string of `subkey,value` entries
/// (see [`pair_entries`]); any other keeps the value's text, quoted when
/// it was a string.
pub open spec fn property_stmt(t: Seq<u8>, name: Seq<char>, a: TokV, pv: ProfileView) -> (bool, ProfileView, TokV) {
    let (mode, pv1) = key_mode(pv, name);
    match a.1 {
        None => (false, pv1, err_at(a)),
        Some(v) => if mode != WriteMode::Pair {
            let vm = if a.0 == Symbol::Str {
                WriteMode::Stringify
            } else {
                WriteMode::Uncooked
            };
            let (b, h) = add_result(pv1.cur().header, name, None, Some(latin1(v)), vm);
            let pv2 = pv1.with_cur((TableView { header: h, ..pv1.cur() }));
            if !b {
                (false, pv2, a)
            } else {
                (true, pv2, skip_eolns(t, next_token(t, a.2)))
            }
        } else if a.0 != Symbol::Str {
            (false, pv1, err_at(a))
        } else {
            let (b, tv2) = pair_entries(v, 0, name, pv1.cur());
            let pv2 = pv1.with_cur(tv2);
            if !b {
                (false, pv2, err_at(a))
            } else {
                (true, pv2, skip_eolns(t, next_token(t, a.2)))
            }
        },
    }
}

/// One header statement from token `tk`: `KEYWORD name` and
/// `DATA_FORMAT_IDENTIFIER name` register a name, `name value` sets a
/// property, a line end is passed over, anything else is an error.
/// Whether it was taken, the object after it, and the token reached.
pub open spec fn header_stmt(t: Seq<u8>, tk: TokV, pv: ProfileView) -> (bool, ProfileView, TokV) {
    if tk.0 == Symbol::Keyword || tk.0 == Symbol::DataFormatId {
        let a = next_token(t, tk.2);
        match a.1 {
            None => (false, pv, err_at(a)),
            Some(v) => {
                let (ok, pv2) = register(pv, tk.0 == Symbol::DataFormatId, latin1(v));
                if !ok {
                    (false, pv2, a)
                } else {
                    (true, pv2, skip_eolns(t, next_token(t, a.2)))
                }
            },
        }
    } else if tk.0 == Symbol::Ident {
        property_stmt(t, latin1(tk.1->0), next_token(t, tk.2), pv)
    } else if tk.0 == Symbol::Eoln {
        (true, pv, skip_eolns(t, tk))
    } else {
        (false, pv, err_at(tk))
    }
}

/// The header statements from token `tk` on, up to a token that ends the
/// header or the first statement refused. Whether all were taken, the
/// object after them, and the token reached.
#[verifier::opaque]
pub open spec fn header_run(t: Seq<u8>, tk: TokV, pv: ProfileView) -> (bool, ProfileView, TokV)
    decreases t.len() + 1 - tk.2,
{
    if header_stop(tk) {
        (true, pv, tk)
    } else {
        let (ok, pv2, nt) = header_stmt(t, tk, pv);
        if !ok {
            (false, pv2, nt)
        } else if tk.2 < nt.2 <= t.len() {
            header_run(t, nt, pv2)
        } else {
            (true, pv2, nt)
        }
    }
}

/// A token with a text is neither the end of the stream nor an error.
proof fn lemma_next_token_val(t: Seq<u8>, c: int)
    ensures
        next_token(t, c).1 is Some ==> !tok_stopped(next_token(t, c)),
    decreases t.len() + 1 - c,
{
    let (s, v, e) = lex(t, c);
    if s == Symbol::Comment && c < e <= t.len() {
        lemma_next_token_val(t, e);
    }
}

/// Passing over line ends from a line end moves on, unless the stream
/// stops there.
proof fn lemma_skip_eolns_strict(t: Seq<u8>, tk: TokV)
    requires
        -1 <= tk.2 <= t.len(),
        tk.0 == Symbol::Eoln,
    ensures
        tok_stopped(skip_eolns(t, tk)) || tk.2 < skip_eolns(t, tk).2,
        skip_eolns(t, tk).2 <= t.len(),
{
    lemma_next_token_moves(t, tk.2);
    let nt = next_token(t, tk.2);
    if nt.0 == Symbol::Eoln && tk.2 < nt.2 <= t.len() {
        lemma_skip_eolns_moves(t, nt);
    }
}

/// A statement that is taken moves on, unless the stream stops there.
proof fn lemma_header_stmt_moves(t: Seq<u8>, tk: TokV, pv: ProfileView)
    requires
        -1 <= tk.2 <= t.len(),
        header_stmt(t, tk, pv).0,
    ensures
        tok_stopped(header_stmt(t, tk, pv).2) || tk.2 < header_stmt(t, tk, pv).2.2,
        -1 <= header_stmt(t, tk, pv).2.2 <= t.len(),
{
    lemma_next_token_moves(t, tk.2);
    lemma_next_token_val(t, tk.2);
    let a = next_token(t, tk.2);
    if tk.0 == Symbol::Eoln {
        lemma_skip_eolns_strict(t, tk);
        lemma_skip_eolns_moves(t, tk);
    } else {
        lemma_after_moves(t, a.2);
        if tk.0 == Symbol::Ident {
            let name = latin1(tk.1->0);
            let (mode, pv1) = key_mode(pv, name);
            assert(a.1 is Some);
            assert(header_stmt(t, tk, pv) == property_stmt(t, name, a, pv));
            assert(header_stmt(t, tk, pv).2 == skip_eolns(t, next_token(t, a.2)));
        }
    }
}

proof fn lemma_header_run_unfold(t: Seq<u8>, tk: TokV, pv: ProfileView)
    requires
        -1 <= tk.2 <= t.len(),
    ensures
        header_stop(tk) ==> header_run(t, tk, pv) == (true, pv, tk),
        !header_stop(tk) && !header_stmt(t, tk, pv).0 ==> header_run(t, tk, pv) == header_stmt(t, tk, pv),
        !header_stop(tk) && header_stmt(t, tk, pv).0 ==> header_run(t, tk, pv) == header_run(
            t,
            header_stmt(t, tk, pv).2,
            header_stmt(t, tk, pv).1,
        ),
{
    reveal(header_run);
    if !header_stop(tk) && header_stmt(t, tk, pv).0 {
        lemma_header_stmt_moves(t, tk, pv);
        let (ok, pv2, nt) = header_stmt(t, tk, pv);
        if tok_stopped(nt) {
            assert(header_run(t, nt, pv2) == (true, pv2, nt));
        }
    }
}

// ------------------------------------------------------------ stream

/// The object with the sheet type of table `idx` set to `st`.
pub open spec fn set_sheet(pv: ProfileView, idx: int, st: Seq<char>) -> ProfileView {
    ProfileView {
        tables: pv.tables.update(idx, (TableView { sheet_type: st, ..pv.tables[idx] })),
        ..pv
    }
}

/// After a data block that the stream goes on from, at token `tk`: a new
/// empty table becomes the active one (refused when the stream is full).
/// Unless the stream has no sheet types, an identifier alone on its line
/// is the new table's sheet type; one followed by more text leaves the
/// sheet type empty and is read again as a statement (from past the
/// blanks after it); a string is the sheet type.
pub open spec fn new_table(t: Seq<u8>, tk: TokV, pv: ProfileView, nosheet: bool) -> (bool, ProfileView, TokV) {
    if pv.tables.len() >= MAXTABLES - 1 {
        (false, pv, tk)
    } else {
        let last = pv.tables.len() as int;
        let pv1 = ProfileView {
            tables: pv.tables.push(empty_table(Seq::empty())),
            n_table: last,
            ..pv
        };
        if nosheet {
            (true, pv1, tk)
        } else if tk.0 == Symbol::Ident {
            let b = blank_end(t, tk.2);
            if ch_at(t, b) == 10u8 || ch_at(t, b) == 13u8 {
                (true, set_sheet(pv1, last, latin1(tk.1->0)), next_token(t, b))
            } else {
                (true, set_sheet(pv1, last, Seq::empty()), (tk.0, tk.1, b))
            }
        } else if tk.0 == Symbol::Str {
            (true, set_sheet(pv1, last, latin1(tk.1->0)), next_token(t, tk.2))
        } else {
            (true, pv1, tk)
        }
    }
}

/// One step of the stream from token `tk` (not a stop): a data format
/// block, a data block (and the table after it), a line end, or a header.
pub open spec fn it8_step(t: Seq<u8>, tk: TokV, pv: ProfileView, nosheet: bool) -> (bool, ProfileView, TokV) {
    if tk.0 == Symbol::BeginDataFormat {
        let (ok, tv, nt) = format_section(t, tk, pv.cur());
        (ok, pv.with_cur(tv), nt)
    } else if tk.0 == Symbol::BeginData {
        let (ok, tv, nt) = data_block(t, tk, pv.cur());
        let pv2 = pv.with_cur(tv);
        if !ok {
            (false, pv2, nt)
        } else if tok_stopped(nt) {
            (true, pv2, nt)
        } else {
            new_table(t, nt, pv2, nosheet)
        }
    } else if tk.0 == Symbol::Eoln {
        (true, pv, skip_eolns(t, tk))
    } else {
        header_run(t, tk, pv)
    }
}

/// The steps of the stream from token `tk` on, up to its end, an error
/// or the first step refused. Whether the stream was read without error,
/// the object, and the token reached.
#[verifier::opaque]
pub open spec fn it8_run(t: Seq<u8>, tk: TokV, pv: ProfileView, nosheet: bool) -> (bool, ProfileView, TokV)
    decreases t.len() + 1 - tk.2,
{
    if tok_stopped(tk) {
        (tk.0 != Symbol::SynError, pv, tk)
    } else {
        let (ok, pv2, nt) = it8_step(t, tk, pv, nosheet);
        if !ok {
            (false, pv2, nt)
        } else if tk.2 < nt.2 <= t.len() {
            it8_run(t, nt, pv2, nosheet)
        } else {
            (nt.0 != Symbol::SynError, pv2, nt)
        }
    }
}

/// A whole stream read from index `c` into `pv`: unless it has no sheet
/// types, the first line is the sheet type of the first table; the line
/// ends after it are passed over, then the steps run.
pub open spec fn it8_parse(t: Seq<u8>, c: int, pv: ProfileView, nosheet: bool) -> (bool, ProfileView, TokV) {
    if nosheet {
        it8_run(t, skip_eolns(t, next_token(t, c)), pv, nosheet)
    } else {
        it8_run(
            t,
            skip_eolns(t, next_token(t, type_end(t, blank_end(t, c)))),
            set_sheet(pv, 0, latin1(type_text(t, c))),
            nosheet,
        )
    }
}

proof fn lemma_it8_run_unfold(t: Seq<u8>, tk: TokV, pv: ProfileView, nosheet: bool)
    requires
        -1 <= tk.2 <= t.len(),
    ensures
        tok_stopped(tk) ==> it8_run(t, tk, pv, nosheet) == (tk.0 != Symbol::SynError, pv, tk),
        !tok_stopped(tk) && !it8_step(t, tk, pv, nosheet).0 ==> it8_run(t, tk, pv, nosheet) == it8_step(
            t,
            tk,
            pv,
            nosheet,
        ),
        !tok_stopped(tk) && it8_step(t, tk, pv, nosheet).0 && (tok_stopped(it8_step(t, tk, pv, nosheet).2) || tk.2
            < it8_step(t, tk, pv, nosheet).2.2 <= t.len()) ==> it8_run(t, tk, pv, nosheet) == it8_run(
            t,
            it8_step(t, tk, pv, nosheet).2,
            it8_step(t, tk, pv, nosheet).1,
            nosheet,
        ),
{
    reveal(it8_run);
    let (ok, pv2, nt) = it8_step(t, tk, pv, nosheet);
    if !tok_stopped(tk) && ok && tok_stopped(nt) && !(tk.2 < nt.2 <= t.len()) {
        assert(it8_run(t, nt, pv2, nosheet) == (nt.0 != Symbol::SynError, pv2, nt));
    }
}

// ------------------------------------------------------------ sections

/// The label of column `f` in a table's format, if the format is
/// allocated, `f` names a column and that column has a label.
pub open spec fn column_label(df: Option<Seq<Option<Seq<char>>>>, f: int) -> Option<Seq<char>> {
    match df {
        Some(d) => if 0 <= f < d.len() {
            d[f]
        } else {
            None
        },
        None => None,
    }
}

impl Profile {
    /// Set the sheet type of table `idx`.
    fn set_sheet_at(&mut self, idx: usize, s: String)
        requires
            old(self).wf(),
            idx < old(self)@.tables.len(),
        ensures
            final(self).wf(),
            final(self)@.n_table == old(self)@.n_table,
            final(self)@.keywords == old(self)@.keywords,
            final(self)@.sample_ids == old(self)@.sample_ids,
            final(self)@.tables == old(self)@.tables.update(
                idx as int,
                (TableView { sheet_type: s@, ..old(self)@.tables[idx as int] }),
            ),
    {
        self.tables[idx].sheet_type = s;
        proof {
            assert(table_wf(old(self)@.tables[idx as int]));
            assert(tables_view(self.tables@) =~= tables_view(old(self).tables@).update(
                idx as int,
                self.tables@[idx as int]@,
            ));
            assert(view_wf(self@));
        }
    }

    /// The column labels up to `END_DATA_FORMAT` (see [`format_section`]).
    #[verifier::rlimit(40)]
    fn data_format_section(&mut self, p: &mut Parser) -> (ok: bool)
        requires
            old(self).wf(),
            old(p).wf(),
            !old(p).stopped(),
        ensures
            final(self).wf(),
            final(self)@.n_table == old(self)@.n_table,
            final(self)@.keywords == old(self)@.keywords,
            final(self)@.sample_ids == old(self)@.sample_ids,
            final(self)@.tables.len() == old(self)@.tables.len(),
            final(p).wf(),
            final(p).text() == old(p).text(),
            final(p).prog() < old(p).prog(),
            ({
                let (b, tv, tk) = format_section(old(p).text(), old(p).tok(), old(self)@.cur());
                &&& ok == b
                &&& final(self)@ == old(self)@.with_cur(tv)
                &&& final(p).tok() == tk
            }),
    {
        let ghost t = p.text();
        let ghost v0 = self@;
        let mut i_field: i32 = 0;
        p.in_symbol();
        if !p.check_eoln() {
            proof {
                lemma_with_cur_same(v0);
            }
            return false;
        }
        let ghost b0 = p.tok();
        proof {
            lemma_with_cur_same(v0);
            reveal(format_labels);
        }
        while p.sy != Symbol::EndDataFormat && p.sy != Symbol::Eoln && p.sy != Symbol::Eof
            && p.sy != Symbol::SynError
            invariant
                self.wf(),
                self@.n_table == old(self)@.n_table,
                self@.tables.len() == old(self)@.tables.len(),
                p.wf(),
                p.text() == old(p).text(),
                p.text() == t,
                p.prog() < old(p).prog(),
                0 <= i_field <= 0x7ffe,
                v0 == old(self)@,
                self@ == v0.with_cur(self@.cur()),
                format_labels(t, p.tok(), self@.cur(), i_field as int) == format_labels(t, b0, v0.cur(), 0),
                format_section(t, old(p).tok(), v0.cur()) == block_tail(
                    t,
                    format_labels(t, b0, v0.cur(), 0),
                    Symbol::EndDataFormat,
                ),
            decreases p.prog(),
        {
            let ghost tv = self@.cur();
            let ghost tk = p.tok();
            proof {
                lemma_format_labels_unfold(t, tk, tv, i_field as int);
            }
            if p.sy != Symbol::Ident {
                p.syn_error();
                return false;
            }
            let label = latin1_string(p.id.as_slice());
            if !self.set_data_format(i_field, label.as_str()) {
                proof {
                    lemma_with_cur_twice(v0, tv, self@.cur());
                }
                return false;
            }
            proof {
                assert(table_wf(self@.cur()));
                lemma_with_cur_twice(v0, tv, self@.cur());
                lemma_after_moves(t, tk.2);
            }
            i_field += 1;
            p.in_symbol();
            p.skip_eoln();
        }
        p.skip_eoln();
        p.skip(Symbol::EndDataFormat);
        p.skip_eoln();
        true
    }

    /// The cells up to `END_DATA`, row by row; the number of rows read must
    /// match `NUMBER_OF_SETS` (see [`data_block`]).
    #[verifier::rlimit(60)]
    fn data_section(&mut self, p: &mut Parser) -> (ok: bool)
        requires
            old(self).wf(),
            old(p).wf(),
            !old(p).stopped(),
        ensures
            final(self).wf(),
            final(self)@.n_table == old(self)@.n_table,
            final(self)@.keywords == old(self)@.keywords,
            final(self)@.sample_ids == old(self)@.sample_ids,
            final(self)@.tables.len() == old(self)@.tables.len(),
            final(p).wf(),
            final(p).text() == old(p).text(),
            final(p).prog() < old(p).prog(),
            ({
                let (b, tv, tk) = data_block(old(p).text(), old(p).tok(), old(self)@.cur());
                &&& ok == b
                &&& final(self)@ == old(self)@.with_cur(tv)
                &&& final(p).tok() == tk
            }),
    {
        let ghost t = p.text();
        let ghost v0 = self@;
        let mut i_field: i32 = 0;
        let mut i_set: i32 = 0;
        p.in_symbol();
        proof {
            lemma_with_cur_same(v0);
        }
        if !p.check_eoln() {
            return false;
        }
        if self.table().data.is_none() && !self.allocate_data_set() {
            return false;
        }
        let ghost b0 = p.tok();
        let ghost tv1 = self@.cur();
        proof {
            lemma_with_cur_twice(v0, v0.cur(), tv1);
            reveal(data_cells);
        }
        while p.sy != Symbol::EndData && p.sy != Symbol::Eof && p.sy != Symbol::SynError
            invariant
                self.wf(),
                self@.n_table == old(self)@.n_table,
                self@.tables.len() == old(self)@.tables.len(),
                p.wf(),
                p.text() == old(p).text(),
                p.text() == t,
                p.prog() < old(p).prog(),
                0 <= i_field <= 0x7fff,
                0 <= i_set <= 0x7fff,
                v0 == old(self)@,
                self@ == v0.with_cur(self@.cur()),
                data_cells(t, p.tok(), self@.cur(), i_set as int, i_field as int) == data_cells(t, b0, tv1, 0, 0),
                data_block(t, old(p).tok(), v0.cur()) == data_tail(t, data_cells(t, b0, tv1, 0, 0)),
            decreases p.prog(),
        {
            let ghost tv = self@.cur();
            let ghost tk = p.tok();
            proof {
                lemma_data_cells_unfold(t, tk, tv, i_set as int, i_field as int);
            }
            if i_field >= self.table().n_samples {
                i_field = 0;
                i_set += 1;
            }
            let val: String = if p.sy == Symbol::Ident {
                latin1_string(p.id.as_slice())
            } else if p.sy == Symbol::Str {
                latin1_string(p.string.as_slice())
            } else {
                match p.get_val() {
                    Some(v) => latin1_string(v.as_slice()),
                    None => {
                        return false;
                    },
                }
            };
            if !self.set_data(i_set, i_field, val.as_str()) {
                proof {
                    lemma_with_cur_twice(v0, tv, self@.cur());
                }
                return false;
            }
            proof {
                assert(table_wf(self@.cur()));
                lemma_with_cur_twice(v0, tv, self@.cur());
            }
            i_field += 1;
            p.in_symbol();
            p.skip_eoln();
        }
        p.skip_eoln();
        p.skip(Symbol::EndData);
        p.skip_eoln();
        if i_set + 1 != self.table().n_patches {
            p.syn_error();
            return false;
        }
        true
    }

    /// A pair property: `subkey,value` entries separated by `;`, each split
    /// at its last comma and trimmed of blanks; every part must be nonempty.
    fn parse_pair_property(&mut self, var_name: &str, buffer: &[u8]) -> (ok: bool)
        requires
            old(self).wf(),
        ensures
            final(self).wf(),
            final(self)@.n_table == old(self)@.n_table,
            final(self)@.keywords == old(self)@.keywords,
            final(self)@.sample_ids == old(self)@.sample_ids,
            final(self)@.tables.len() == old(self)@.tables.len(),
            ok == pair_entries(buffer@, 0, var_name@, old(self)@.cur()).0,
            final(self)@ == old(self)@.with_cur(pair_entries(buffer@, 0, var_name@, old(self)@.cur()).1),
    {
        let ghost v0 = self@;
        let n = buffer.len();
        let mut start: usize = 0;
        let mut done = false;
        proof {
            lemma_with_cur_same(v0);
        }
        while !done
            invariant
                self.wf(),
                self@.n_table == old(self)@.n_table,
                self@.tables.len() == old(self)@.tables.len(),
                start <= n,
                n == buffer@.len(),
                v0 == old(self)@,
                self@ == v0.with_cur(self@.cur()),
                !done ==> pair_entries(buffer@, start as int, var_name@, self@.cur()) == pair_entries(
                    buffer@,
                    0,
                    var_name@,
                    v0.cur(),
                ),
                done ==> pair_entries(buffer@, 0, var_name@, v0.cur()) == (true, self@.cur()),
            decreases 2 * (n - start) + if done {
                0int
            } else {
                1int
            },
        {
            let ghost tv = self@.cur();
            let end = find_semicolon(buffer, start);
            proof {
                lemma_last_comma_range(buffer@, start as int, end as int);
            }
            let comma = match rfind_comma(buffer, start, end) {
                None => {
                    return false;
                },
                Some(c) => c,
            };
            let (a, b) = trim_range(buffer, start, comma);
            let (x, y) = trim_range(buffer, comma + 1, end);
            if a == b || x == y {
                return false;
            }
            let sub = latin1_string(copy_range(buffer, a, b).as_slice());
            let val = latin1_string(copy_range(buffer, x, y).as_slice());
            self.add_property(var_name, Some(sub.as_str()), val.as_str(), WriteMode::Pair);
            proof {
                lemma_with_cur_twice(v0, tv, self@.cur());
            }
            if end == n {
                done = true;
            } else {
                start = end + 1;
            }
        }
        true
    }

    /// Keyword registrations and properties, up to a data
    /// block (see [`header_run`]).
    #[verifier::rlimit(60)]
    fn header_section(&mut self, p: &mut Parser) -> (ok: bool)
        requires
            old(self).wf(),
            old(p).wf(),
            !old(p).stopped(),
            old(p).sym() != Symbol::BeginDataFormat,
            old(p).sym() != Symbol::BeginData,
        ensures
            final(self).wf(),
            final(self)@.n_table == old(self)@.n_table,
            final(self)@.tables.len() == old(self)@.tables.len(),
            final(p).wf(),
            final(p).text() == old(p).text(),
            final(p).prog() < old(p).prog(),
            ({
                let (b, pv, tk) = header_run(old(p).text(), old(p).tok(), old(self)@);
                &&& ok == b
                &&& final(self)@ == pv
                &&& final(p).tok() == tk
            }),
    {
        let ghost t = p.text();
        while p.sy != Symbol::Eof && p.sy != Symbol::SynError && p.sy != Symbol::BeginDataFormat
            && p.sy != Symbol::BeginData
            invariant
                self.wf(),
                self@.n_table == old(self)@.n_table,
                self@.tables.len() == old(self)@.tables.len(),
                p.wf(),
                p.text() == old(p).text(),
                p.text() == t,
                p.prog() < old(p).prog() || (p.prog() == old(p).prog() && p.sym() == old(p).sym()),
                header_run(t, p.tok(), self@) == header_run(t, old(p).tok(), old(self)@),
            decreases p.prog(),
        {
            let ghost tk = p.tok();
            let ghost pv = self@;
            proof {
                lemma_header_run_unfold(t, tk, pv);
                lemma_next_token_val(t, tk.2);
            }
            if p.sy == Symbol::Keyword || p.sy == Symbol::DataFormatId {
                let is_id = p.sy == Symbol::DataFormatId;
                p.in_symbol();
                let ghost a = p.tok();
                let buffer = match p.get_val() {
                    Some(v) => v,
                    None => {
                        return false;
                    },
                };
                let key = latin1_string(buffer.as_slice());
                let added = if is_id {
                    add_to_list(&mut self.valid_sample_id, key.as_str(), None, None, WriteMode::Uncooked)
                } else {
                    add_to_list(&mut self.valid_keywords, key.as_str(), None, None, WriteMode::Uncooked)
                };
                proof {
                    assert(self@ == register(pv, is_id, latin1(a.1->0)).1);
                }
                if !added {
                    return false;
                }
                p.in_symbol();
            } else if p.sy == Symbol::Ident {
                let var_name = latin1_string(p.id.as_slice());
                // An unknown keyword is registered, as a non-strict stream
                // allows; a known one brings its write mode.
                let key_write_as = match is_available_on_list(
                    &self.valid_keywords,
                    var_name.as_str(),
                    None,
                ) {
                    Some(i) => {
                        proof {
                            assert(kvs_view(self.valid_keywords@)[i as int] == self.valid_keywords@[i as int]@);
                        }
                        self.valid_keywords[i].write_as
                    },
                    None => {
                        add_to_list(
                            &mut self.valid_keywords,
                            var_name.as_str(),
                            None,
                            None,
                            WriteMode::Uncooked,
                        );
                        proof {
                            assert(self@ == register(pv, false, var_name@).1);
                        }
                        WriteMode::Uncooked
                    },
                };
                let ghost pv1 = self@;
                proof {
                    assert(key_write_as == key_mode(pv, var_name@).0);
                    assert(pv1 == key_mode(pv, var_name@).1);
                }
                p.in_symbol();
                let ghost a = p.tok();
                let buffer = match p.get_val() {
                    Some(v) => v,
                    None => {
                        return false;
                    },
                };
                if key_write_as != WriteMode::Pair {
                    let mode = if p.sy == Symbol::Str {
                        WriteMode::Stringify
                    } else {
                        WriteMode::Uncooked
                    };
                    let value = latin1_string(buffer.as_slice());
                    if !self.add_property(var_name.as_str(), None, value.as_str(), mode) {
                        return false;
                    }
                } else {
                    if p.sy != Symbol::Str {
                        p.syn_error();
                        return false;
                    }
                    if !self.parse_pair_property(var_name.as_str(), buffer.as_slice()) {
                        p.syn_error();
                        return false;
                    }
                }
                p.in_symbol();
            } else if p.sy == Symbol::Eoln {
            } else {
                p.syn_error();
                return false;
            }
            p.skip_eoln();
        }
        proof {
            lemma_header_run_unfold(t, p.tok(), self@);
        }
        true
    }

    /// The sheet type line (unless the first line is already
    /// data), then headers, `DATA_FORMAT` and data blocks; every data block
    /// after the first opens a new table (see [`it8_parse`]).
    #[verifier::rlimit(80)]
    fn parse_it8(&mut self, p: &mut Parser, nosheet: bool) -> (ok: bool)
        requires
            old(self).wf(),
            old(p).wf(),
        ensures
            final(self).wf(),
            final(p).wf(),
            final(p).text() == old(p).text(),
            ({
                let (b, pv, tk) = it8_parse(old(p).text(), old(p).cur(), old(self)@, nosheet);
                &&& ok == b
                &&& final(self)@ == pv
                &&& final(p).tok() == tk
            }),
    {
        let ghost t = p.text();
        if !nosheet {
            let ty = p.read_type();
            let st = latin1_string(ty.as_slice());
            self.set_sheet_at(0, st);
        }
        p.in_symbol();
        p.skip_eoln();
        while p.sy != Symbol::Eof && p.sy != Symbol::SynError
            invariant
                self.wf(),
                p.wf(),
                p.text() == t,
                t == old(p).text(),
                it8_run(t, p.tok(), self@, nosheet) == it8_parse(t, old(p).cur(), old(self)@, nosheet),
            decreases p.prog(),
        {
            let ghost tk = p.tok();
            let ghost pv = self@;
            let ghost p0 = *p;
            proof {
                lemma_it8_run_unfold(t, tk, pv, nosheet);
            }
            if p.sy == Symbol::BeginDataFormat {
                if !self.data_format_section(p) {
                    return false;
                }
            } else if p.sy == Symbol::BeginData {
                if !self.data_section(p) {
                    return false;
                }
                if p.sy != Symbol::Eof && p.sy != Symbol::SynError {
                    let ghost nt = p.tok();
                    let ghost pv2 = self@;
                    if !self.alloc_table() {
                        return false;
                    }
                    self.n_table = self.tables.len() - 1;
                    if !nosheet {
                        if p.sy == Symbol::Ident {
                            // A sheet type or a property statement.
                            p.skip_blanks();
                            let last = self.tables.len() - 1;
                            if p.ch == 10u8 || p.ch == 13u8 {
                                let st = latin1_string(p.id.as_slice());
                                self.set_sheet_at(last, st);
                                p.in_symbol();
                            } else {
                                self.set_sheet_at(last, String::new());
                            }
                        } else if p.sy == Symbol::Str {
                            let st = latin1_string(p.string.as_slice());
                            let last = self.tables.len() - 1;
                            self.set_sheet_at(last, st);
                            p.in_symbol();
                        }
                    }
                    proof {
                        assert(self@ == new_table(t, nt, pv2, nosheet).1);
                        assert(p.tok() == new_table(t, nt, pv2, nosheet).2);
                    }
                }
            } else if p.sy == Symbol::Eoln {
                p.skip_eoln();
            } else {
                if !self.header_section(p) {
                    return false;
                }
            }
            proof {
                p.lemma_prog_moves(&p0);
            }
        }
        proof {
            lemma_it8_run_unfold(t, p.tok(), self@, nosheet);
        }
        p.sy != Symbol::SynError
    }
}


// ------------------------------------------------------------ cooking

/// A cell that names a property, as it is written once expanded for
/// table `k` whose value is `value`: `label k value`.
pub open spec fn expanded_label(label: Seq<char>, k: int, value: Seq<char>) -> Seq<char> {
    label + " "@ + latin1(dec_digits(k as nat)) + " "@ + value
}

/// Cell (`i`, `f`) of the active table, holding `label`, as the tables from
/// `k` up to `count` rewrite it: each whose header defines `label` writes
/// it again as [`expanded_label`] with its own value (an empty one when it
/// has none).
pub open spec fn expand_from(pv: ProfileView, i: int, f: int, label: Seq<char>, k: int, count: int) -> ProfileView
    decreases count - k,
{
    if k < 0 || k >= count {
        pv
    } else {
        let pv2 = match locate(pv.tables[k].header, tb(label), None) {
            Some(a) => {
                let ty = match pv.tables[k].header[a].value {
                    Some(v) => v,
                    None => Seq::empty(),
                };
                pv.with_cur(set_cell_spec(pv.cur(), i, f, expanded_label(label, k, ty)).1)
            },
            None => pv,
        };
        expand_from(pv2, i, f, label, k + 1, count)
    }
}

/// Column `f` of the active table expanded from row `i` up to row `n`:
/// each cell that holds a text is rewritten as [`expand_from`] says.
pub open spec fn cook_rows(pv: ProfileView, f: int, i: int, n: int) -> ProfileView
    decreases n - i,
{
    if i >= n {
        pv
    } else {
        let pv2 = match cell_at(pv.cur(), i, f) {
            None => pv,
            Some(l) => expand_from(pv, i, f, l, 0, pv.tables.len() as int),
        };
        cook_rows(pv2, f, i + 1, n)
    }
}

/// A column label that names the patch column.
pub open spec fn is_sample_id_label(fld: Seq<char>) -> bool {
    ci_eq(tb(fld), tb("SAMPLE_ID"@))
}

/// A column label whose cells name properties: `LABEL`, or one starting
/// with `$`.
pub open spec fn is_label_column(fld: Seq<char>) -> bool {
    ci_eq(tb(fld), tb("LABEL"@)) || (tb(fld).len() > 0 && tb(fld)[0] == 36u8)
}

/// The object with the patch column of table `j` set to `v`.
pub open spec fn set_sample_id(pv: ProfileView, j: int, v: int) -> ProfileView {
    ProfileView {
        tables: pv.tables.update(j, (TableView { sample_id: v, ..pv.tables[j] })),
        ..pv
    }
}

/// The columns of table `j` (the active one) from `f` up to `n`: a
/// `SAMPLE_ID` column becomes the patch column, and a label column is
/// expanded (see [`cook_rows`]).
pub open spec fn cook_fields(pv: ProfileView, j: int, f: int, n: int) -> ProfileView
    decreases n - f,
{
    if f >= n {
        pv
    } else {
        let pv2 = match column_label(pv.tables[j].data_format, f) {
            None => pv,
            Some(fld) => {
                let pa = if is_sample_id_label(fld) {
                    set_sample_id(pv, j, f)
                } else {
                    pv
                };
                if is_label_column(fld) {
                    cook_rows(pa, f, 0, pa.cur().n_patches)
                } else {
                    pa
                }
            },
        };
        cook_fields(pv2, j, f + 1, n)
    }
}

/// The tables from `j` up to `count`, each made active in turn: its patch
/// column reset to 0, then its columns cooked (see [`cook_fields`]).
pub open spec fn cook_tables(pv: ProfileView, j: int, count: int) -> ProfileView
    decreases count - j,
{
    if j < 0 || j >= count {
        pv
    } else {
        let pa = ProfileView { n_table: j, ..set_sample_id(pv, j, 0) };
        cook_tables(cook_fields(pa, j, 0, pa.tables[j].n_samples), j + 1, count)
    }
}

/// The object after its label cells are expanded and its patch columns
/// found, with the same active table.
pub open spec fn cooked(pv: ProfileView) -> ProfileView {
    ProfileView { n_table: pv.n_table, ..cook_tables(pv, 0, pv.tables.len() as int) }
}

/// What a fresh object holds: one empty table of sheet type `CGATS.17`,
/// active, and the predefined keywords and sample ids registered.
pub open spec fn fresh_profile() -> ProfileView {
    ProfileView {
        tables: seq![empty_table("CGATS.17"@)],
        n_table: 0,
        keywords: registered_keywords(predefined_property_list(), predefined_property_list().len() as int),
        sample_ids: registered_ids(predefined_sample_id_list(), predefined_sample_id_list().len() as int),
    }
}

/// A stream that looks like CGATS text, loaded: whether it parsed (a
/// stream whose detected layout is not the one with a sheet type line has
/// none), and the object, cooked, with the first table active.
pub open spec fn loaded(b: Seq<u8>) -> (bool, ProfileView) {
    let r = it8_parse(b, -1, fresh_profile(), my_block(b) != Some(1int));
    (r.0, ProfileView { n_table: 0, ..cooked(r.1) })
}

impl Profile {
    /// The label `text` a `LABEL` / `$` column cell is expanded to when
    /// table `k` defines it: `label k value`.
    fn expand_label(label: &str, k: usize, value: &str) -> (r: String)
        ensures
            r@ == label@ + " "@ + latin1(dec_digits(k as nat)) + " "@ + value@,
    {
        let mut b = label.to_owned();
        b.append(" ");
        let digits = fmt_u64(k as u64);
        let num = latin1_string(digits.as_slice());
        b.append(num.as_str());
        b.append(" ");
        b.append(value);
        b
    }

    fn set_sample_id_at(&mut self, idx: usize, v: i32)
        requires
            old(self).wf(),
            idx < old(self)@.tables.len(),
            0 <= v <= 0x7ffe,
        ensures
            final(self).wf(),
            final(self)@.n_table == old(self)@.n_table,
            final(self)@.keywords == old(self)@.keywords,
            final(self)@.sample_ids == old(self)@.sample_ids,
            final(self)@.tables == old(self)@.tables.update(
                idx as int,
                (TableView { sample_id: v as int, ..old(self)@.tables[idx as int] }),
            ),
    {
        self.tables[idx].sample_id = v;
        proof {
            assert(table_wf(old(self)@.tables[idx as int]));
            assert(tables_view(self.tables@) =~= tables_view(old(self).tables@).update(
                idx as int,
                self.tables@[idx as int]@,
            ));
            assert(view_wf(self@));
        }
    }

    /// The label of column `f` of table `j`.
    fn label_at(&self, j: usize, f: i32) -> (r: Option<String>)
        requires
            self.wf(),
            j < self@.tables.len(),
        ensures
            opt_view(r) == column_label(self@.tables[j as int].data_format, f as int),
    {
        match &self.tables[j].data_format {
            Some(df) => {
                if f >= 0 && (f as usize) < df.len() {
                    match &df[f as usize] {
                        Some(x) => Some(x.clone()),
                        None => None,
                    }
                } else {
                    None
                }
            },
            None => None,
        }
    }

    /// Expand the cells of one label column of the active table (see
    /// [`cook_rows`]).
    fn cook_label_column(&mut self, id_field: i32, count: usize)
        requires
            old(self).wf(),
            count == old(self)@.tables.len(),
        ensures
            final(self).wf(),
            final(self)@ == cook_rows(old(self)@, id_field as int, 0, old(self)@.cur().n_patches),
            final(self)@.n_table == old(self)@.n_table,
            final(self)@.tables.len() == old(self)@.tables.len(),
    {
        let n_patches = self.table().n_patches;
        proof {
            assert(table_wf(old(self)@.cur()));
        }
        let mut i: i32 = 0;
        while i < n_patches
            invariant
                self.wf(),
                self@.tables.len() == count,
                self@.n_table == old(self)@.n_table,
                0 <= i <= n_patches,
                n_patches == old(self)@.cur().n_patches,
                cook_rows(self@, id_field as int, i as int, n_patches as int) == cook_rows(
                    old(self)@,
                    id_field as int,
                    0,
                    n_patches as int,
                ),
            decreases n_patches - i,
        {
            let ghost pr = self@;
            match self.get_data(i, id_field) {
                None => {},
                Some(l) => {
                    let label = l.to_owned();
                    let mut k: usize = 0;
                    while k < count
                        invariant
                            self.wf(),
                            self@.tables.len() == count,
                            self@.n_table == old(self)@.n_table,
                            pr.tables.len() == count,
                            k <= count,
                            expand_from(self@, i as int, id_field as int, label@, k as int, count as int)
                                == expand_from(pr, i as int, id_field as int, label@, 0, count as int),
                        decreases count - k,
                    {
                        let ghost pk = self@;
                        match is_available_on_list(&self.tables[k].header_list, label.as_str(), None) {
                            Some(a) => {
                                proof {
                                    assert(pk.tables[k as int].header == kvs_view(self.tables@[k as int].header_list@));
                                    assert(pk.tables[k as int].header[a as int] == self.tables@[k as int].header_list@[a as int]@);
                                }
                                let ty = match &self.tables[k].header_list[a].value {
                                    Some(v) => v.clone(),
                                    None => String::new(),
                                };
                                let buffer = Profile::expand_label(label.as_str(), k, ty.as_str());
                                self.set_data(i, id_field, buffer.as_str());
                            },
                            None => {},
                        }
                        k += 1;
                    }
                },
            }
            i += 1;
        }
    }

    /// Per table, the `SAMPLE_ID` column is looked up (the
    /// last one wins, 0 when there is none), and the cells of `LABEL` and
    /// `$...` columns that name a property of some table are expanded to
    /// `label table value` (see [`cooked`]). The active table is restored
    /// afterwards.
    fn cook_pointers(&mut self)
        requires
            old(self).wf(),
        ensures
            final(self).wf(),
            final(self)@ == cooked(old(self)@),
    {
        let n_old = self.n_table;
        let count = self.tables.len();
        let mut j: usize = 0;
        while j < count
            invariant
                self.wf(),
                self@.tables.len() == count,
                j <= count,
                n_old < count,
                n_old == old(self)@.n_table,
                count == old(self)@.tables.len(),
                cook_tables(self@, j as int, count as int) == cook_tables(old(self)@, 0, count as int),
            decreases count - j,
        {
            self.set_sample_id_at(j, 0);
            self.n_table = j;
            let n_samples = self.tables[j].n_samples;
            let ghost pj = self@;
            proof {
                assert(table_wf(self@.tables[j as int]));
                assert(self@.tables[j as int].n_samples == n_samples);
            }
            let mut id_field: i32 = 0;
            while id_field < n_samples
                invariant
                    self.wf(),
                    self@.tables.len() == count,
                    self@.n_table == j,
                    j < count,
                    n_old < count,
                    0 <= id_field <= n_samples,
                    n_samples <= 0x7ffe,
                    cook_fields(self@, j as int, id_field as int, n_samples as int) == cook_fields(
                        pj,
                        j as int,
                        0,
                        n_samples as int,
                    ),
                decreases n_samples - id_field,
            {
                match self.label_at(j, id_field) {
                    None => {},
                    Some(fld) => {
                        if str_ci_eq(fld.as_str(), "SAMPLE_ID") {
                            self.set_sample_id_at(j, id_field);
                        }
                        let fb = fld.as_str().as_bytes();
                        if str_ci_eq(fld.as_str(), "LABEL") || (fb.len() > 0 && fb[0] == 36u8) {
                            self.cook_label_column(id_field, count);
                        }
                    },
                }
                id_field += 1;
            }
            j += 1;
        }
        self.n_table = n_old;
    }

    /// Parse a CGATS / IT8 buffer. An empty buffer, one
    /// that does not look like CGATS text, and one that does not parse are
    /// refused. The first table is active in the result.
    pub fn load_from_mem(buf: &[u8]) -> (r: Result<Profile, Error>)
        ensures
            buf@.len() == 0 ==> r is Err,
            my_block(buf@) is None ==> r is Err,
            buf@.len() > 0 && my_block(buf@) is Some ==> (r is Ok <==> loaded(buf@).0),
            r matches Ok(p) ==> p.wf() && p@ == loaded(buf@).1,
    {
        if buf.len() == 0 {
            return Err(Error::Corrupt("empty CGATS buffer"));
        }
        let ty = match is_my_block(buf) {
            None => {
                return Err(Error::Corrupt("not a CGATS/IT8 stream"));
            },
            Some(t) => t,
        };
        let mut prof = Profile::new();
        let mut parser = Parser::new(buf);
        proof {
            assert(prof@ == fresh_profile());
        }
        if !prof.parse_it8(&mut parser, ty != 1) {
            return Err(Error::Corrupt("CGATS parse error"));
        }
        prof.cook_pointers();
        prof.n_table = 0;
        Ok(prof)
    }
}

} // verus!
