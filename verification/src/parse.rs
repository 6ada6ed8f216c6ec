//! Decoding the persisted grid format: lines of whitespace-separated hex
//! numerals, one line per grid row. Malformed input — a numeral with a
//! non-hex character, a value beyond 32 bits, rows of unequal length, or no
//! rows at all — is rejected here, before any search runs.

use vstd::prelude::*;
use crate::hexnum::{is_hex_digit, digits_val, hex_digit_value, lemma_digits_val_nonneg,
    lemma_digits_val_prefix_le};
use crate::grid::{valid_grid};

verus! {

use vstd::string::StringSliceAdditionalSpecFns;

/// Why a grid text was rejected.
#[derive(Clone, Copy, Debug, PartialEq, Eq, Structural)]
pub enum GridError {
    /// A numeral holds a non-hex character or denotes more than 32 bits.
    InvalidDigit,
    /// No rows, or rows of unequal length.
    MalformedGrid,
}

/// In-line whitespace: the ASCII characters that separate numerals within
/// one line of the map format.
pub open spec fn is_ws(b: u8) -> bool {
    b == 32 || b == 9 || b == 13 || b == 11 || b == 12 || b == 10
}

/// The length of the numeral that starts at the head of `s`: the number of
/// leading non-whitespace bytes.
pub open spec fn token_len(s: Seq<u8>) -> nat
    decreases s.len(),
{
    if s.len() == 0 || is_ws(s[0]) {
        0
    } else {
        1 + token_len(s.drop_first())
    }
}

pub proof fn lemma_token_len_bounds(s: Seq<u8>)
    ensures
        token_len(s) <= s.len(),
        s.len() > 0 && !is_ws(s[0]) ==> token_len(s) >= 1,
    decreases s.len(),
{
    if s.len() > 0 && !is_ws(s[0]) {
        lemma_token_len_bounds(s.drop_first());
    }
}

/// The whitespace-separated tokens of a line, in order.
pub open spec fn tokens(s: Seq<u8>) -> Seq<Seq<u8>>
    decreases s.len(),
    via tokens_decreases
{
    if s.len() == 0 {
        Seq::empty()
    } else if is_ws(s[0]) {
        tokens(s.drop_first())
    } else {
        seq![s.take(token_len(s) as int)] + tokens(s.skip(token_len(s) as int))
    }
}

#[via_fn]
proof fn tokens_decreases(s: Seq<u8>) {
    lemma_token_len_bounds(s);
}

/// A well-formed numeral: hex digits only, denoting at most 32 bits.
pub open spec fn token_ok(t: Seq<u8>) -> bool {
    &&& forall|j: int| 0 <= j < t.len() ==> is_hex_digit(#[trigger] t[j])
    &&& digits_val(t, 16) <= u32::MAX
}

/// Every numeral on the line is well formed.
pub open spec fn line_ok(s: Seq<u8>) -> bool {
    forall|k: int| 0 <= k < tokens(s).len() ==> token_ok(#[trigger] tokens(s)[k])
}

/// The cell weights a line denotes, in order.
pub open spec fn line_vals(s: Seq<u8>) -> Seq<u32> {
    tokens(s).map_values(|t: Seq<u8>| (digits_val(t, 16) as u32))
}

/// Whether a byte is in-line whitespace.
fn is_ws_byte(b: u8) -> (r: bool)
    ensures
        r == is_ws(b),
{
    b == 32 || b == 9 || b == 13 || b == 11 || b == 12 || b == 10
}

/// Whether a byte is an ASCII hex digit.
fn is_hex_digit_byte(b: u8) -> (r: bool)
    ensures
        r == is_hex_digit(b),
{
    (b >= 48 && b <= 57) || (b >= 97 && b <= 102) || (b >= 65 && b <= 70)
}

/// Decode one line of the map format into its row of cell weights:
/// whitespace-separated hex numerals, each of at most 32 bits. Exactly the
/// lines whose every numeral is well formed decode; a whitespace-only line
/// decodes to an empty row.
pub fn parse_hex_row(line: &str) -> (r: Result<Vec<u32>, GridError>)
    ensures
        (r matches Ok(v) ==> line_ok(line.spec_bytes()) && v@ == line_vals(line.spec_bytes())),
        (r matches Err(e) ==> e == GridError::InvalidDigit && !line_ok(line.spec_bytes())),
{
    let b = line.as_bytes();
    let ghost s = b@;
    let mut vals: Vec<u32> = Vec::new();
    let ghost mut done: Seq<Seq<u8>> = Seq::empty();
    let mut i: usize = 0;
    proof {
        assert(s.skip(0) =~= s);
        assert(tokens(s) =~= done + tokens(s.skip(0)));
    }
    while i < b.len()
        invariant
            s == b@,
            s == line.spec_bytes(),
            i <= s.len(),
            tokens(s) == done + tokens(s.skip(i as int)),
            vals@.len() == done.len(),
            forall|k: int| 0 <= k < done.len() ==> token_ok(#[trigger] done[k]),
            forall|k: int| 0 <= k < done.len() ==> #[trigger] vals@[k] as int == digits_val(
                done[k],
                16,
            ),
        decreases s.len() - i,
    {
        if is_ws_byte(b[i]) {
            proof {
                assert(s.skip(i as int).drop_first() =~= s.skip(i + 1));
                assert(tokens(s.skip(i as int)) == tokens(s.skip(i + 1)));
            }
            i = i + 1;
        } else {
            let ghost suf = s.skip(i as int);
            let ghost tl = token_len(suf);
            let ghost tok = suf.take(tl as int);
            proof {
                lemma_token_len_bounds(suf);
                assert(tokens(suf) == seq![tok] + tokens(suf.skip(tl as int)));
                assert(tokens(s)[done.len() as int] == tok);
            }
            // Find the end of the numeral.
            let mut j: usize = i + 1;
            proof {
                assert(suf.drop_first() =~= s.skip(i + 1));
                assert(tl == 1 + token_len(s.skip(i + 1)));
            }
            while j < b.len() && !is_ws_byte(b[j])
                invariant
                    s == b@,
                    i < j <= s.len(),
                    suf == s.skip(i as int),
                    tl == token_len(suf),
                    tl == (j - i) + token_len(s.skip(j as int)),
                decreases s.len() - j,
            {
                proof {
                    assert(s.skip(j as int).drop_first() =~= s.skip(j + 1));
                    assert(token_len(s.skip(j as int)) == 1 + token_len(s.skip(j + 1)));
                }
                j = j + 1;
            }
            proof {
                assert(token_len(s.skip(j as int)) == 0);
                assert(tl == j - i);
                assert(tok.len() == j - i);
                assert forall|q: int| 0 <= q < tok.len() implies tok[q] == s[i + q] by {}
            }
            // Every character of the numeral must be a hex digit.
            let mut p: usize = i;
            while p < j
                invariant
                    s == b@,
                    s == line.spec_bytes(),
                    i <= p <= j <= s.len(),
                    tok == s.skip(i as int).take((j - i) as int),
                    tok.len() == j - i,
                    forall|q: int| 0 <= q < tok.len() ==> #[trigger] tok[q] == s[i + q],
                    tokens(s)[done.len() as int] == tok,
                    0 <= done.len() < tokens(s).len(),
                    forall|q: int| i <= q < p ==> is_hex_digit(#[trigger] s[q]),
                decreases j - p,
            {
                if !is_hex_digit_byte(b[p]) {
                    proof {
                        assert(tok[p - i] == s[p as int]);
                        assert(!token_ok(tok));
                    }
                    return Err(GridError::InvalidDigit);
                }
                p = p + 1;
            }
            proof {
                assert forall|q: int| 0 <= q < tok.len() implies is_hex_digit(
                    #[trigger] tok[q],
                ) by {
                    assert(tok[q] == s[i + q]);
                }
            }
            // Accumulate the numeral's value, rejecting anything past 32 bits.
            let mut val: u64 = 0;
            let mut q: usize = i;
            proof {
                assert(tok.take(0) =~= Seq::<u8>::empty());
            }
            while q < j
                invariant
                    s == b@,
                    s == line.spec_bytes(),
                    i <= q <= j <= s.len(),
                    tok.len() == j - i,
                    forall|x: int| 0 <= x < tok.len() ==> #[trigger] tok[x] == s[i + x],
                    forall|x: int| 0 <= x < tok.len() ==> is_hex_digit(#[trigger] tok[x]),
                    tokens(s)[done.len() as int] == tok,
                    0 <= done.len() < tokens(s).len(),
                    val as int == digits_val(tok.take(q - i), 16),
                    val <= u32::MAX,
                decreases j - q,
            {
                proof {
                    assert(tok[q - i] == s[q as int]);
                }
                let d = hex_digit_value(b[q]);
                val = val * 16 + (d as u64);
                proof {
                    let pre = tok.take(q - i);
                    let next = tok.take(q - i + 1);
                    assert(next.drop_last() =~= pre);
                    assert(next.last() == tok[q - i]);
                    assert(val as int == digits_val(next, 16));
                }
                if val > 0xFFFF_FFFF {
                    proof {
                        lemma_digits_val_prefix_le(tok, 16, q - i + 1);
                        assert(digits_val(tok, 16) > u32::MAX);
                        assert(!token_ok(tok));
                    }
                    return Err(GridError::InvalidDigit);
                }
                q = q + 1;
            }
            proof {
                assert(tok.take((j - i) as int) =~= tok);
                assert(token_ok(tok));
            }
            vals.push(val as u32);
            proof {
                assert(suf.skip(tl as int) =~= s.skip(i + tl));
                done = done.push(tok);
                assert(tokens(s) =~= done + tokens(s.skip((i + tl) as int)));
            }
            i = j;
        }
    }
    proof {
        assert(s.skip(s.len() as int) =~= Seq::<u8>::empty());
        assert(tokens(s.skip(s.len() as int)) =~= Seq::<Seq<u8>>::empty());
        assert(tokens(s) =~= done);
        assert forall|k: int| 0 <= k < vals@.len() implies #[trigger] vals@[k] == line_vals(s)[k] by {
            lemma_digits_val_nonneg(done[k], 16);
        }
        assert(vals@ =~= line_vals(s));
    }
    Ok(vals)
}

/// The grid a list of lines denotes: the decoded row of every line that
/// holds at least one numeral, in order. Lines without numerals separate or
/// pad the text and carry no row.
pub open spec fn grid_rows(ls: Seq<Seq<u8>>) -> Seq<Seq<u32>>
    decreases ls.len(),
{
    if ls.len() == 0 {
        Seq::empty()
    } else {
        let rest = grid_rows(ls.drop_last());
        if tokens(ls.last()).len() > 0 {
            rest.push(line_vals(ls.last()))
        } else {
            rest
        }
    }
}

/// Every numeral on every line is well formed.
pub open spec fn all_lines_ok(ls: Seq<Seq<u8>>) -> bool {
    forall|i: int| 0 <= i < ls.len() ==> line_ok(#[trigger] ls[i])
}

/// The byte views of a list of line strings.
pub open spec fn lines_bytes(ls: Seq<String>) -> Seq<Seq<u8>> {
    Seq::new(ls.len(), |i: int| vstd::utf8::encode_utf8(ls[i]@))
}

/// The rows-of-weights view of a built grid.
pub open spec fn rows_view(g: Seq<Vec<u32>>) -> Seq<Seq<u32>> {
    Seq::new(g.len(), |i: int| g[i]@)
}

/// Decode a whole map text, given as its list of lines, into a validated
/// grid. Returns `InvalidDigit` when any numeral on any line is malformed;
/// otherwise `MalformedGrid` when the denoted rows are empty or of unequal
/// lengths; otherwise the grid, which then satisfies the grid invariant.
pub fn parse_grid(lines: &Vec<String>) -> (r: Result<Vec<Vec<u32>>, GridError>)
    ensures
        (r matches Ok(g) ==> all_lines_ok(lines_bytes(lines@)) && rows_view(g@) == grid_rows(
            lines_bytes(lines@),
        ) && valid_grid(rows_view(g@))),
        r == Err::<Vec<Vec<u32>>, GridError>(GridError::InvalidDigit) <==> !all_lines_ok(
            lines_bytes(lines@),
        ),
        r == Err::<Vec<Vec<u32>>, GridError>(GridError::MalformedGrid) <==> (all_lines_ok(
            lines_bytes(lines@),
        ) && !valid_grid(grid_rows(lines_bytes(lines@)))),
{
    let ghost ls = lines_bytes(lines@);
    let mut rows: Vec<Vec<u32>> = Vec::new();
    let mut i: usize = 0;
    proof {
        assert(ls.take(0) =~= Seq::<Seq<u8>>::empty());
        assert(rows_view(rows@) =~= grid_rows(ls.take(0)));
    }
    while i < lines.len()
        invariant
            ls == lines_bytes(lines@),
            i <= lines@.len(),
            ls.len() == lines@.len(),
            forall|k: int| 0 <= k < i ==> line_ok(#[trigger] ls[k]),
            rows_view(rows@) == grid_rows(ls.take(i as int)),
        decreases lines@.len() - i,
    {
        let l = lines[i].as_str();
        proof {
            assert(l.spec_bytes() == ls[i as int]);
        }
        let row = parse_hex_row(l);
        match row {
            Result::Err(_) => {
                proof {
                    assert(!line_ok(ls[i as int]));
                }
                return Err(GridError::InvalidDigit);
            },
            Result::Ok(v) => {
                let ghost old_rows = rows@;
                if v.len() > 0 {
                    rows.push(v);
                }
                proof {
                    assert(ls.take(i + 1).drop_last() =~= ls.take(i as int));
                    assert(ls.take(i + 1).last() == ls[i as int]);
                    assert(rows_view(rows@) =~= grid_rows(ls.take(i + 1)));
                }
                i = i + 1;
            },
        }
    }
    proof {
        assert(ls.take(ls.len() as int) =~= ls);
    }
    if grid_is_valid_rows(&rows) {
        Ok(rows)
    } else {
        Err(GridError::MalformedGrid)
    }
}

/// Whether the collected rows satisfy the grid invariant.
fn grid_is_valid_rows(rows: &Vec<Vec<u32>>) -> (r: bool)
    ensures
        r == valid_grid(rows_view(rows@)),
{
    let r = crate::grid::grid_is_valid(rows);
    proof {
        assert(crate::grid::gview(rows) =~= rows_view(rows@));
    }
    r
}

} // verus!
