use vstd::prelude::*;
use crate::cell::{Cell, CellView};
use crate::ieee::{double_text_exec, double_text_of};
use crate::sheet::Sheet;
use crate::text::{chars_to_string, str_chars};
use vstd::slice::slice_subrange;

verus! {

/// The character for one decimal digit.
pub open spec fn digit_char_of(d: int) -> char {
    ((0x30 + d) as u8) as char
}

/// The decimal digits of `n`, most significant first, no sign and no
/// leading zeros.
pub open spec fn digits_of(n: nat) -> Seq<char>
    decreases n,
{
    if n < 10 {
        seq![digit_char_of(n as int)]
    } else {
        digits_of(n / 10).push(digit_char_of((n % 10) as int))
    }
}

/// The decimal text of a signed integer.
pub open spec fn spec_int_text(x: int) -> Seq<char> {
    if x < 0 {
        seq!['-'] + digits_of((-x) as nat)
    } else {
        digits_of(x as nat)
    }
}

/// Appends the decimal digits of `n`.
fn push_digits(n: u64, out: &mut Vec<char>)
    ensures
        final(out)@ == old(out)@ + digits_of(n as nat),
    decreases n,
{
    let d: u8 = (n % 10) as u8;
    let c: char = (0x30u8 + d) as char;
    if n < 10 {
        out.push(c);
        proof {
            assert(out@ =~= old(out)@ + digits_of(n as nat));
        }
    } else {
        push_digits(n / 10, out);
        out.push(c);
        proof {
            assert(out@ =~= old(out)@ + digits_of(n as nat));
        }
    }
}

/// The decimal text of a signed 64-bit integer, as characters.
fn int_chars(x: i64) -> (v: Vec<char>)
    ensures
        v@ == spec_int_text(x as int),
{
    let mut v: Vec<char> = Vec::new();
    if x < 0 {
        v.push('-');
        let mag: u64 = (-(x as i128)) as u64;
        push_digits(mag, &mut v);
        proof {
            assert(v@ =~= spec_int_text(x as int));
        }
    } else {
        push_digits(x as u64, &mut v);
        proof {
            assert(v@ =~= spec_int_text(x as int));
        }
    }
    v
}

/// The text a cell contributes to serialized output: nothing for a null,
/// the text itself for a text cell, the boolean words, decimal digits for
/// an integer, and the double's decimal text for a floating cell.
pub open spec fn spec_cell_text(c: CellView) -> Seq<char> {
    match c {
        CellView::Null => Seq::empty(),
        CellView::Str(t) => t,
        CellView::Bool(b) => if b {
            seq!['t', 'r', 'u', 'e']
        } else {
            seq!['f', 'a', 'l', 's', 'e']
        },
        CellView::Int(x) => spec_int_text(x as int),
        CellView::Float(bits) => double_text_of(bits),
    }
}

/// The serialized text of a row from cell `j` on: each cell's text
/// followed by a trailing comma.
pub open spec fn spec_row_text(row: Seq<CellView>, j: int) -> Seq<char>
    decreases row.len() - j,
{
    if j < 0 || j >= row.len() {
        Seq::empty()
    } else {
        spec_cell_text(row[j]) + seq![','] + spec_row_text(row, j + 1)
    }
}

/// The serialized text of a grid from row `i` on: each row's text
/// followed by a line feed.
pub open spec fn spec_grid_text(grid: Seq<Seq<CellView>>, i: int) -> Seq<char>
    decreases grid.len() - i,
{
    if i < 0 || i >= grid.len() {
        Seq::empty()
    } else {
        spec_row_text(grid[i], 0) + seq!['\n'] + spec_grid_text(grid, i + 1)
    }
}

/// The serialized text of the whole grid.
pub open spec fn spec_render(grid: Seq<Seq<CellView>>) -> Seq<char> {
    spec_grid_text(grid, 0)
}

impl Sheet {
    /// The whole grid as delimited text, ready to be written out: every
    /// cell's text followed by a comma, every row followed by a line feed.
    pub fn to_delimited_text(&self) -> (out: String)
        ensures
            out@ == spec_render(self@),
    {
        let mut out: String = String::new();
        let n: usize = self.data.len();
        proof {
            assert(self@.len() == n);
            assert(out@ + spec_grid_text(self@, 0) =~= spec_render(self@));
        }
        let mut i: usize = 0;
        while i < n
            invariant
                0 <= i <= n == self@.len(),
                self@.len() == self.data@.len(),
                out@ + spec_grid_text(self@, i as int) == spec_render(self@),
            decreases n - i,
        {
            let row: &Vec<Cell> = &self.data[i];
            proof {
                assert(row@.len() == self@[i as int].len());
            }
            let m: usize = row.len();
            let mut j: usize = 0;
            proof {
                assert(spec_grid_text(self@, i as int) == spec_row_text(self@[i as int], 0)
                    + seq!['\n'] + spec_grid_text(self@, i as int + 1));
            }
            while j < m
                invariant
                    0 <= j <= m == row@.len(),
                    row@.len() == self@[i as int].len(),
                    0 <= i < self@.len(),
                    row@ == self.data@[i as int]@,
                    self@[i as int] == self.data@[i as int].deep_view(),
                    out@ + spec_row_text(self@[i as int], j as int) + seq!['\n'] + spec_grid_text(
                        self@,
                        i as int + 1,
                    ) == spec_render(self@),
                decreases m - j,
            {
                let ghost preout = out@;
                proof {
                    assert(spec_row_text(self@[i as int], j as int) == spec_cell_text(
                        self@[i as int][j as int],
                    ) + seq![','] + spec_row_text(self@[i as int], j as int + 1));
                }
                match &row[j] {
                    Cell::Null => {
                        proof {
                            assert(out@ =~= preout + spec_cell_text(self@[i as int][j as int]));
                        }
                    },
                    Cell::String(s) => {
                        out.append(s.as_str());
                    },
                    Cell::Bool(b) => {
                        if *b {
                            out.append("true");
                            proof {
                                reveal_strlit("true");
                                assert(("true")@ =~= seq!['t', 'r', 'u', 'e']);
                            }
                        } else {
                            out.append("false");
                            proof {
                                reveal_strlit("false");
                                assert(("false")@ =~= seq!['f', 'a', 'l', 's', 'e']);
                            }
                        }
                    },
                    Cell::Int(x) => {
                        let digits: Vec<char> = int_chars(*x);
                        let st: String = chars_to_string(digits.as_slice());
                        out.append(st.as_str());
                    },
                    Cell::Float(bits) => {
                        let st: String = double_text_exec(*bits);
                        out.append(st.as_str());
                    },
                }
                proof {
                    assert(out@ =~= preout + spec_cell_text(self@[i as int][j as int]));
                }
                out.append(",");
                proof {
                    reveal_strlit(",");
                    assert((",")@ =~= seq![',']);
                    assert(out@ =~= preout + spec_cell_text(self@[i as int][j as int])
                        + seq![',']);
                }
                j = j + 1;
            }
            out.append("\n");
            proof {
                reveal_strlit("\n");
                assert(("\n")@ =~= seq!['\n']);
                assert(spec_row_text(self@[i as int], m as int) =~= Seq::<char>::empty());
                assert(out@ + spec_grid_text(self@, i as int + 1) =~= spec_render(self@));
            }
            i = i + 1;
        }
        proof {
            assert(spec_grid_text(self@, n as int) =~= Seq::<char>::empty());
            assert(out@ =~= spec_render(self@));
        }
        out
    }
}

/// Position of the last occurrence of `d` strictly before `i`, or -1.
pub open spec fn rfind_char(s: Seq<char>, d: char, i: int) -> int
    decreases i,
{
    if i <= 0 || i > s.len() {
        -1
    } else if s[i - 1] == d {
        i - 1
    } else {
        rfind_char(s, d, i - 1)
    }
}

/// The text after the last dot of the path, or the whole path when it has
/// none.
pub open spec fn spec_suffix(s: Seq<char>) -> Seq<char> {
    let p = rfind_char(s, '.', s.len() as int);
    if p < 0 {
        s
    } else {
        s.subrange(p + 1, s.len() as int)
    }
}

/// The path is accepted: what follows its last dot reads "csv". A path
/// without a dot is its own suffix, so the bare name "csv" passes too.
pub open spec fn spec_csv_path(s: Seq<char>) -> bool {
    spec_suffix(s) == seq!['c', 's', 'v']
}

/// A downward scan that saw no `d` in `(p, i)`, and `d` or the start at
/// `p`, has found the last occurrence before `i`.
proof fn lemma_rfind_char(s: Seq<char>, d: char, i: int, p: int)
    requires
        0 <= p <= i <= s.len(),
        forall|j: int| p <= j < i ==> s[j] != d,
        p == 0 || s[p - 1] == d,
    ensures
        rfind_char(s, d, i) == if p == 0 {
            -1int
        } else {
            p - 1
        },
    decreases i - p,
{
    if p < i {
        lemma_rfind_char(s, d, i - 1, p);
    }
}

/// Decides whether a path carries the accepted suffix: the text after its
/// last dot must read exactly "csv".
pub fn is_csv_path(path: &str) -> (r: bool)
    ensures
        r == spec_csv_path(path@),
{
    let cs: Vec<char> = str_chars(path);
    let n: usize = cs.len();
    let mut i: usize = n;
    while i > 0 && cs[i - 1] != '.'
        invariant
            0 <= i <= n == cs@.len(),
            forall|j: int| i <= j < n ==> cs@[j] != '.',
        decreases i,
    {
        i = i - 1;
    }
    proof {
        lemma_rfind_char(cs@, '.', n as int, i as int);
    }
    let start: usize = i;
    let ghost suffix = spec_suffix(path@);
    proof {
        assert(suffix =~= cs@.subrange(start as int, n as int));
    }
    if n - start == 3 && cs[start] == 'c' && cs[start + 1] == 's' && cs[start + 2] == 'v' {
        proof {
            assert(suffix =~= seq!['c', 's', 'v']);
        }
        true
    } else {
        proof {
            if suffix == seq!['c', 's', 'v'] {
                assert(suffix.len() == 3);
                assert(cs@[start as int] == 'c' && cs@[start as int + 1] == 's' && cs@[start as int
                    + 2] == 'v');
            }
        }
        false
    }
}

} // verus!
