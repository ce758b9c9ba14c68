use vstd::prelude::*;
use crate::cell::{Cell, CellView};
use crate::text::{find_in, spec_fields, spec_lines, spec_trim, str_chars, strip_cr, trim_bounds};
use crate::token::{parse_token, spec_parse_token};
use vstd::slice::slice_subrange;

verus! {

/// The failures an operation reports instead of completing.
#[derive(Debug, Clone, Copy, PartialEq, Eq, Structural)]
pub enum TableError {
    /// A row whose field count differs from the header's.
    InvalidInput,
    /// A cell that is neither an integer nor a double where an aggregate
    /// needs a number.
    NonNumericCell,
    /// A cell that is not an integer where an integer aggregate needs one.
    NonIntCell,
    /// A page number below one, or a page size beyond the cap.
    BadPageRequest,
    /// A page that runs past the rows the grid holds.
    PageUnavailable,
}

/// The in-memory grid: an ordered sequence of rows of cells, row 0 being
/// the header whose text entries name the columns.
#[derive(Debug)]
pub struct Sheet {
    /// The rows, header first.
    pub data: Vec<Vec<Cell>>,
}

impl View for Sheet {
    type V = Seq<Seq<CellView>>;

    open spec fn view(&self) -> Seq<Seq<CellView>> {
        self.data.deep_view()
    }
}

impl Default for Sheet {
    /// The default sheet holds no rows at all.
    fn default() -> (s: Sheet)
        ensures
            s@.len() == 0,
    {
        Sheet { data: Vec::new() }
    }
}

/// One line of input parsed into cells: each comma-separated field is
/// trimmed and then read by the token parser.
pub open spec fn spec_parse_row(line: Seq<char>) -> Seq<CellView> {
    spec_fields(line).map_values(|f: Seq<char>| spec_parse_token(spec_trim(f)))
}

/// Every line of the input parsed into a row, in order.
pub open spec fn spec_rows(s: Seq<char>) -> Seq<Seq<CellView>> {
    spec_lines(s).map_values(|l: Seq<char>| spec_parse_row(l))
}

/// A row right-padded with null cells up to width `w`; a row already that
/// wide or wider is left as it is.
pub open spec fn pad_row(row: Seq<CellView>, w: int) -> Seq<CellView> {
    if row.len() >= w {
        row
    } else {
        row + Seq::new((w - row.len()) as nat, |i: int| CellView::Null)
    }
}

/// The grid a text load produces: the parsed rows, with every body row
/// padded to the header's width; the header itself is never padded.
pub open spec fn spec_load(s: Seq<char>) -> Seq<Seq<CellView>> {
    let rows = spec_rows(s);
    Seq::new(
        rows.len(),
        |i: int|
            if i == 0 {
                rows[0]
            } else {
                pad_row(rows[i], rows[0].len() as int)
            },
    )
}

/// Rectangularity of a load: when no parsed body row is wider than the
/// header, every row of the loaded grid has exactly the header's width.
pub proof fn lemma_load_rectangular(s: Seq<char>)
    requires
        forall|i: int|
            1 <= i < spec_rows(s).len() ==> (#[trigger] spec_rows(s)[i]).len() <= spec_rows(
                s,
            )[0].len(),
    ensures
        forall|i: int|
            0 <= i < spec_load(s).len() ==> #[trigger] spec_load(s)[i].len() == spec_rows(
                s,
            )[0].len(),
{
}

/// Reads one line into a row of cells.
fn parse_row(line: &[char]) -> (row: Vec<Cell>)
    ensures
        row.deep_view() == spec_parse_row(line@),
{
    let mut row: Vec<Cell> = Vec::new();
    let mut rest: &[char] = line;
    loop
        invariant
            spec_parse_row(line@) == row.deep_view() + spec_parse_row(rest@),
        decreases rest@.len(),
    {
        let ghost pre = row.deep_view();
        let ghost prev = rest@;
        let rn: usize = rest.len();
        match find_in(rest, ',', 0) {
            Some(p) => {
                let f: &[char] = slice_subrange(rest, 0, p);
                let tb: (usize, usize) = trim_bounds(f);
                let tok: &[char] = slice_subrange(f, tb.0, tb.1);
                let cell: Cell = parse_token(tok);
                row.push(cell);
                rest = slice_subrange(rest, p + 1, rn);
                proof {
                    assert(spec_fields(prev) == seq![prev.subrange(0, p as int)] + spec_fields(
                        prev.subrange(p as int + 1, prev.len() as int),
                    ));
                    assert(spec_parse_row(prev) =~= seq![spec_parse_token(spec_trim(f@))]
                        + spec_parse_row(rest@));
                    assert(row.deep_view() =~= pre + seq![spec_parse_token(spec_trim(f@))]);
                    assert(row.deep_view() + spec_parse_row(rest@) =~= pre + spec_parse_row(prev));
                }
            },
            None => {
                let tb: (usize, usize) = trim_bounds(rest);
                let tok: &[char] = slice_subrange(rest, tb.0, tb.1);
                let cell: Cell = parse_token(tok);
                row.push(cell);
                proof {
                    assert(spec_fields(prev) == seq![prev]);
                    assert(spec_parse_row(prev) =~= seq![spec_parse_token(spec_trim(prev))]);
                    assert(row.deep_view() =~= pre + spec_parse_row(prev));
                }
                return row;
            },
        }
    }
}

impl Sheet {
    /// A sheet with no rows.
    fn new_sheet() -> (s: Self)
        ensures
            s@.len() == 0,
    {
        Sheet { data: Vec::<Vec<Cell>>::new() }
    }

    /// Builds the grid from an in-memory text: line 0 becomes the header
    /// and every further line a body row, fields split at commas, trimmed
    /// and type-inferred, short body rows padded with nulls to the
    /// header's width.
    #[verifier::rlimit(50)]
    pub fn load_data_from_str(data: &str) -> (sheet: Self)
        requires
            data@.len() > 0,
        ensures
            sheet@ == spec_load(data@),
            sheet@.len() > 0,
    {
        let ghost all = spec_rows(data@);
        let cs: Vec<char> = str_chars(data);
        let mut sheet: Sheet = Self::new_sheet();
        let mut header_len: usize = 0;
        let mut rest: &[char] = cs.as_slice();
        loop
            invariant
                all == spec_rows(data@),
                sheet.data@.len() <= all.len(),
                spec_rows(rest@) == all.skip(sheet.data@.len() as int),
                sheet.data@.len() > 0 ==> header_len == all[0].len(),
                sheet.data@.len() == 0 ==> rest@ == data@,
                sheet@ =~= Seq::new(
                    sheet.data@.len() as nat,
                    |i: int|
                        if i == 0 {
                            all[0]
                        } else {
                            pad_row(all[i], all[0].len() as int)
                        },
                ),
            ensures
                rest@.len() == 0,
            decreases rest@.len(),
        {
            if rest.len() == 0 {
                break ;
            }
            let ghost prev = rest@;
            let ghost k = sheet.data@.len() as int;
            let line: &[char];
            let rn: usize = rest.len();
            match find_in(rest, '\n', 0) {
                Some(p) => {
                    let mut l: &[char] = slice_subrange(rest, 0, p);
                    if l.len() > 0 && l[l.len() - 1] == '\r' {
                        l = slice_subrange(l, 0, l.len() - 1);
                    }
                    line = l;
                    rest = slice_subrange(rest, p + 1, rn);
                    proof {
                        assert(spec_lines(prev) == seq![strip_cr(prev.subrange(0, p as int))]
                            + spec_lines(prev.subrange(p as int + 1, prev.len() as int)));
                        assert(line@ =~= strip_cr(prev.subrange(0, p as int)));
                        assert(spec_rows(prev) =~= seq![spec_parse_row(line@)] + spec_rows(rest@));
                    }
                },
                None => {
                    line = rest;
                    rest = slice_subrange(rest, rn, rn);
                    proof {
                        assert(spec_lines(prev) == seq![prev]);
                        assert(spec_rows(prev) =~= seq![spec_parse_row(line@)] + spec_rows(rest@));
                        assert(spec_lines(rest@) =~= Seq::<Seq<char>>::empty());
                        assert(spec_rows(rest@) =~= Seq::<Seq<CellView>>::empty());
                    }
                },
            }
            proof {
                assert(spec_rows(prev)[0] == spec_parse_row(line@));
                assert(all[k] == spec_parse_row(line@));
                assert forall|i: int| 0 <= i < spec_rows(rest@).len() implies spec_rows(
                    rest@,
                )[i] == all.skip(k + 1)[i] by {
                    assert(spec_rows(prev)[i + 1] == spec_rows(rest@)[i]);
                    assert(all.skip(k)[i + 1] == all[k + 1 + i]);
                }
                assert(spec_rows(rest@) =~= all.skip(k + 1));
            }
            let mut row: Vec<Cell> = parse_row(line);
            if sheet.data.len() == 0 {
                header_len = row.len();
                proof {
                    assert(row.deep_view().len() == row@.len());
                }
            } else {
                let ghost unpadded = row.deep_view();
                while row.len() < header_len
                    invariant
                        unpadded == all[k],
                        unpadded.len() <= row.deep_view().len(),
                        unpadded.len() >= header_len ==> row.deep_view().len() == unpadded.len(),
                        unpadded.len() < header_len ==> row.deep_view().len() <= header_len,
                        row.deep_view() =~= unpadded + Seq::new(
                            (row.deep_view().len() - unpadded.len()) as nat,
                            |i: int| CellView::Null,
                        ),
                    decreases header_len - row@.len(),
                {
                    let ghost before = row.deep_view();
                    row.push(Cell::Null);
                    proof {
                        assert(row.deep_view() =~= before + seq![CellView::Null]);
                        assert(row.deep_view() =~= unpadded + Seq::new(
                            (row.deep_view().len() - unpadded.len()) as nat,
                            |i: int| CellView::Null,
                        ));
                    }
                }
                proof {
                    assert(row.deep_view() =~= pad_row(all[k], header_len as int));
                }
            }
            let ghost presheet = sheet@;
            sheet.data.push(row);
            proof {
                assert(sheet@ =~= presheet + seq![row.deep_view()]);
            }
        }
        proof {
            assert(spec_lines(rest@) == Seq::<Seq<char>>::empty());
            assert(spec_rows(rest@) =~= Seq::<Seq<CellView>>::empty());
            assert(all.skip(sheet.data@.len() as int).len() == 0);
            assert(sheet.data@.len() == all.len());
            assert(sheet@ =~= spec_load(data@));
        }
        sheet
    }
}

/// The header entry matches the name: it is text and equals it exactly.
pub open spec fn col_match(c: CellView, name: Seq<char>) -> bool {
    match c {
        CellView::Str(t) => t == name,
        _ => false,
    }
}

/// Position of the first header entry matching `name` at or after `i`,
/// or -1 when there is none.
pub open spec fn first_col_from(header: Seq<CellView>, name: Seq<char>, i: int) -> int
    decreases header.len() - i,
{
    if i < 0 || i >= header.len() {
        -1
    } else if col_match(header[i], name) {
        i
    } else {
        first_col_from(header, name, i + 1)
    }
}

/// Position of the first column with the given name, or -1.
pub open spec fn spec_col(header: Seq<CellView>, name: Seq<char>) -> int {
    first_col_from(header, name, 0)
}

/// A scan that matched nothing before `p`, and a match or the end at `p`,
/// has resolved the column.
proof fn lemma_first_col(header: Seq<CellView>, name: Seq<char>, i: int, p: int)
    requires
        0 <= i <= p <= header.len(),
        forall|j: int| i <= j < p ==> !col_match(header[j], name),
        p == header.len() || col_match(header[p], name),
    ensures
        first_col_from(header, name, i) == if p == header.len() {
            -1int
        } else {
            p
        },
    decreases p - i,
{
    if i < p {
        lemma_first_col(header, name, i + 1, p);
    }
}

impl Sheet {
    /// Resolves a column name to its position: the first header entry whose
    /// text equals the name exactly, scanned left to right.
    pub fn get_col_index(&self, column: &str) -> (r: Option<usize>)
        requires
            self@.len() > 0,
        ensures
            match r {
                Some(p) => spec_col(self@[0], column@) == p && 0 <= p < self@[0].len(),
                None => spec_col(self@[0], column@) == -1,
            },
    {
        let name: String = column.to_owned();
        let hdr: &Vec<Cell> = &self.data[0];
        let n: usize = hdr.len();
        let mut i: usize = 0;
        while i < n
            invariant
                0 <= i <= n == hdr@.len(),
                hdr@ == self.data@[0]@,
                self@.len() > 0,
                self@[0] == self.data@[0].deep_view(),
                name@ == column@,
                forall|j: int| 0 <= j < i ==> !col_match(self@[0][j], column@),
            decreases n - i,
        {
            match &hdr[i] {
                Cell::String(colname) => {
                    if <String as PartialEq>::eq(colname, &name) {
                        proof {
                            assert(col_match(self@[0][i as int], column@));
                            lemma_first_col(self@[0], column@, 0, i as int);
                        }
                        return Some(i);
                    }
                },
                _ => {},
            }
            proof {
                assert(!col_match(self@[0][i as int], column@));
            }
            i = i + 1;
        }
        proof {
            lemma_first_col(self@[0], column@, 0, n as int);
        }
        None
    }
}

/// A row copied cell by cell; the copy equals the original.
pub(crate) fn clone_row(r: &Vec<Cell>) -> (c: Vec<Cell>)
    ensures
        c@ == r@,
{
    let mut c: Vec<Cell> = Vec::new();
    let n: usize = r.len();
    let mut i: usize = 0;
    while i < n
        invariant
            0 <= i <= n == r@.len(),
            c@ =~= r@.subrange(0, i as int),
        decreases n - i,
    {
        c.push(r[i].clone());
        i = i + 1;
    }
    proof {
        assert(c@ =~= r@);
    }
    c
}

impl Sheet {
    /// Resolves a column that the caller has already checked to exist.
    pub(crate) fn resolve_col(&self, column: &str) -> (p: usize)
        requires
            self@.len() > 0,
            spec_col(self@[0], column@) >= 0,
        ensures
            p == spec_col(self@[0], column@),
            p < self@[0].len(),
    {
        match self.get_col_index(column) {
            Some(c) => c,
            None => {
                // the caller has already checked that the column exists
                proof {
                    assert(false);
                }
                0
            },
        }
    }

    /// Parses a comma-separated line and appends it as the last row; a
    /// parsed width different from the header's is refused and the grid is
    /// left untouched.
    pub fn insert_row(&mut self, input: &str) -> (r: Result<(), TableError>)
        requires
            old(self)@.len() > 0,
        ensures
            spec_parse_row(input@).len() == old(self)@[0].len() ==> r is Ok && final(self)@
                == old(self)@.push(spec_parse_row(input@)),
            spec_parse_row(input@).len() != old(self)@[0].len() ==> r == Err::<
                (),
                TableError,
            >(TableError::InvalidInput) && final(self)@ == old(self)@,
    {
        let cs: Vec<char> = str_chars(input);
        let row: Vec<Cell> = parse_row(cs.as_slice());
        let hdr_len: usize = self.data[0].len();
        proof {
            assert(row.deep_view().len() == row@.len());
            assert(old(self)@[0].len() == self.data@[0]@.len());
        }
        if row.len() != hdr_len {
            return Err(TableError::InvalidInput);
        }
        let ghost pre = self@;
        self.data.push(row);
        proof {
            assert(self@ =~= pre.push(spec_parse_row(input@)));
        }
        Ok(())
    }

    /// Replaces the cell in the named column of every body row with a copy
    /// of `value`; the header row keeps the column's name.
    pub fn fill_col(&mut self, column: &str, value: Cell) -> (r: Result<(), TableError>)
        requires
            old(self)@.len() > 0,
            spec_col(old(self)@[0], column@) >= 0,
            forall|i: int|
                1 <= i < old(self)@.len() ==> spec_col(old(self)@[0], column@) < (#[trigger] old(
                    self,
                )@[i]).len(),
        ensures
            r is Ok,
            final(self)@.len() == old(self)@.len(),
            final(self)@[0] == old(self)@[0],
            forall|i: int|
                1 <= i < final(self)@.len() ==> #[trigger] final(self)@[i] == old(self)@[i].update(
                    spec_col(old(self)@[0], column@),
                    value@,
                ),
    {
        let ci: usize = self.resolve_col(column);
        let n: usize = self.data.len();
        let mut i: usize = 1;
        while i < n
            invariant
                1 <= i <= n == self@.len(),
                n == old(self)@.len(),
                ci == spec_col(old(self)@[0], column@),
                forall|k: int|
                    1 <= k < old(self)@.len() ==> ci < (#[trigger] old(self)@[k]).len(),
                self@[0] == old(self)@[0],
                forall|k: int|
                    1 <= k < i ==> #[trigger] self@[k] == old(self)@[k].update(ci as int, value@),
                forall|k: int| i <= k < n ==> #[trigger] self@[k] == old(self)@[k],
                forall|k: int| i <= k < n ==> self.data@[k] == old(self).data@[k],
            decreases n - i,
        {
            let ghost pregrid = self@;
            let ghost predata = self.data@;
            proof {
                assert(self@[i as int] == old(self)@[i as int]);
                assert(ci < old(self)@[i as int].len());
                assert(self.data@[i as int]@.len() == self@[i as int].len());
            }
            self.data[i].set(ci, value.clone());
            proof {
                assert(forall|k: int|
                    0 <= k < n && k != i ==> self.data@[k] == #[trigger] predata[k]);
                assert(forall|k: int| 0 <= k < n && k != i ==> #[trigger] self@[k] == pregrid[k]);
                assert(self@[i as int] =~= pregrid[i as int].update(ci as int, value@));
            }
            i = i + 1;
        }
        Ok(())
    }

    /// Removes the named column from every row, the header included, and
    /// reports how many rows were touched: all of them.
    pub fn drop_col(&mut self, column: &str) -> (r: i32)
        requires
            old(self)@.len() > 0,
            old(self)@.len() <= i32::MAX,
            spec_col(old(self)@[0], column@) >= 0,
            forall|i: int|
                0 <= i < old(self)@.len() ==> spec_col(old(self)@[0], column@) < (#[trigger] old(
                    self,
                )@[i]).len(),
        ensures
            r == old(self)@.len(),
            final(self)@.len() == old(self)@.len(),
            forall|i: int|
                0 <= i < final(self)@.len() ==> #[trigger] final(self)@[i] == old(self)@[i].remove(
                    spec_col(old(self)@[0], column@),
                ),
    {
        let ci: usize = self.resolve_col(column);
        let n: usize = self.data.len();
        let mut rows_affected: i32 = 0;
        let mut i: usize = 0;
        while i < n
            invariant
                0 <= i <= n == self@.len(),
                n == old(self)@.len() <= i32::MAX,
                rows_affected == i,
                ci == spec_col(old(self)@[0], column@),
                forall|k: int|
                    0 <= k < old(self)@.len() ==> ci < (#[trigger] old(self)@[k]).len(),
                forall|k: int|
                    0 <= k < i ==> #[trigger] self@[k] == old(self)@[k].remove(ci as int),
                forall|k: int| i <= k < n ==> #[trigger] self@[k] == old(self)@[k],
                forall|k: int| i <= k < n ==> self.data@[k] == old(self).data@[k],
            decreases n - i,
        {
            let ghost pregrid = self@;
            let ghost predata = self.data@;
            proof {
                assert(self@[i as int] == old(self)@[i as int]);
                assert(ci < old(self)@[i as int].len());
                assert(self.data@[i as int]@.len() == self@[i as int].len());
            }
            self.data[i].remove(ci);
            rows_affected = rows_affected + 1;
            proof {
                assert(forall|k: int|
                    0 <= k < n && k != i ==> self.data@[k] == #[trigger] predata[k]);
                assert(forall|k: int| 0 <= k < n && k != i ==> #[trigger] self@[k] == pregrid[k]);
                assert(self@[i as int] =~= pregrid[i as int].remove(ci as int));
            }
            i = i + 1;
        }
        rows_affected
    }

    /// The cell at the structural middle row of the grid, in the named
    /// column: position-based on load order, not on sorted values.
    pub fn median(&self, column: &str) -> (r: &Cell)
        requires
            self@.len() > 0,
            spec_col(self@[0], column@) >= 0,
            spec_col(self@[0], column@) < self@[self@.len() as int / 2].len(),
        ensures
            r@ == self@[self@.len() as int / 2][spec_col(self@[0], column@)],
    {
        let ci: usize = self.resolve_col(column);
        let row_index: usize = ((self.data.len() - 1) + 1) / 2;
        let row: &Vec<Cell> = &self.data[row_index];
        &row[ci]
    }

    /// The requested page of rows: pages are numbered from one, a page
    /// holds `size` rows, and the window starts just past the header.
    /// A page number below one or a size over fifty is refused, as is a
    /// grid with fewer rows than the page size.
    pub fn paginate(&self, page: usize, size: usize) -> (r: Result<Vec<Vec<Cell>>, TableError>)
        requires
            page >= 1 && size <= 50 && size <= self@.len() ==> (page - 1) * size + 1 + size
                <= self@.len(),
        ensures
            (page < 1 || size > 50) ==> r == Err::<Vec<Vec<Cell>>, TableError>(
                TableError::BadPageRequest,
            ),
            page >= 1 && size <= 50 && self@.len() < size ==> r == Err::<
                Vec<Vec<Cell>>,
                TableError,
            >(TableError::PageUnavailable),
            page >= 1 && size <= 50 && size <= self@.len() ==> r is Ok && r->Ok_0.deep_view()
                == self@.subrange(
                (page - 1) * size + 1,
                (page - 1) * size + 1 + size,
            ),
    {
        if page < 1 || size > 50 {
            return Err(TableError::BadPageRequest);
        }
        if self.data.len() < size {
            return Err(TableError::PageUnavailable);
        }
        let mut res: Vec<Vec<Cell>> = Vec::new();
        let n: usize = self.data.len();
        proof {
            assert(self@.len() == n);
        }
        let offset: usize = ((page - 1) * size) + 1;
        let end: usize = offset + size;
        let mut i: usize = offset;
        while i < end
            invariant
                offset == (page - 1) * size + 1,
                end == offset + size,
                offset <= i <= end <= self@.len(),
                res@.len() == i - offset,
                res.deep_view() =~= self@.subrange(offset as int, i as int),
            decreases end - i,
        {
            let ghost pre = res.deep_view();
            let row: Vec<Cell> = clone_row(&self.data[i]);
            res.push(row);
            proof {
                assert(res.deep_view() =~= pre + seq![self@[i as int]]);
                assert(res.deep_view() =~= self@.subrange(offset as int, i as int + 1));
            }
            i = i + 1;
        }
        Ok(res)
    }

    /// The first body row, in load order, whose cell in the named column
    /// satisfies the predicate; absence is an explicit `None`, never an
    /// error.
    pub fn find_first_row<F: Fn(&Cell) -> bool + Copy>(&self, column: &str, predicate: F) -> (r:
        Option<&Vec<Cell>>)
        requires
            self@.len() > 0,
            spec_col(self@[0], column@) >= 0,
            forall|i: int|
                1 <= i < self@.len() ==> spec_col(self@[0], column@) < (#[trigger] self@[i]).len(),
            forall|c: Cell| #[trigger] call_requires(predicate, (&c,)),
        ensures
            ({
                let ci = spec_col(self@[0], column@);
                match r {
                    Some(row) => exists|i: int|
                        {
                            &&& 1 <= i < self@.len()
                            &&& row@ == #[trigger] self.data@[i]@
                            &&& call_ensures(predicate, (&self.data@[i]@[ci],), true)
                            &&& forall|j: int|
                                1 <= j < i ==> call_ensures(
                                    predicate,
                                    (&self.data@[j]@[ci],),
                                    false,
                                )
                        },
                    None => forall|i: int|
                        1 <= i < self@.len() ==> call_ensures(
                            predicate,
                            (&(#[trigger] self.data@[i])@[ci],),
                            false,
                        ),
                }
            }),
    {
        let ci: usize = self.resolve_col(column);
        let n: usize = self.data.len();
        let mut i: usize = 1;
        while i < n
            invariant
                1 <= i <= n == self@.len(),
                self@.len() == self.data@.len(),
                ci == spec_col(self@[0], column@),
                forall|k: int| 1 <= k < self@.len() ==> ci < (#[trigger] self@[k]).len(),
                forall|c: Cell| #[trigger] call_requires(predicate, (&c,)),
                forall|j: int|
                    1 <= j < i ==> call_ensures(
                        predicate,
                        (&(#[trigger] self.data@[j])@[ci as int],),
                        false,
                    ),
            decreases n - i,
        {
            let row: &Vec<Cell> = &self.data[i];
            proof {
                assert(row@.len() == self@[i as int].len());
            }
            let cell: &Cell = &row[ci];
            if predicate(cell) {
                return Some(row);
            }
            i = i + 1;
        }
        None
    }

    /// Every body row, in load order, whose cell in the named column
    /// satisfies the predicate, as a new detached sequence of rows; the
    /// grid itself is left untouched.
    pub fn filter<F: Fn(&Cell) -> bool + Copy>(&self, column: &str, predicate: F) -> (res: Vec<
        Vec<Cell>,
    >)
        requires
            self@.len() > 0,
            spec_col(self@[0], column@) >= 0,
            forall|i: int|
                1 <= i < self@.len() ==> spec_col(self@[0], column@) < (#[trigger] self@[i]).len(),
            forall|c: Cell| #[trigger] call_requires(predicate, (&c,)),
        ensures
            ({
                let ci = spec_col(self@[0], column@);
                exists|picks: Seq<int>|
                    #![trigger picks.len()]
                    {
                        &&& res.deep_view().len() == picks.len()
                        &&& forall|k: int| 0 <= k < picks.len() ==> 1 <= #[trigger] picks[k]
                            < self@.len()
                        &&& forall|k1: int, k2: int|
                            0 <= k1 < k2 < picks.len() ==> #[trigger] picks[k1]
                                < #[trigger] picks[k2]
                        &&& forall|k: int|
                            0 <= k < picks.len() ==> #[trigger] res.deep_view()[k]
                                == self@[picks[k]] && call_ensures(
                                predicate,
                                (&self.data@[picks[k]]@[ci],),
                                true,
                            )
                        &&& forall|i: int|
                            1 <= i < self@.len() && !picks.contains(i) ==> call_ensures(
                                predicate,
                                (&(#[trigger] self.data@[i])@[ci],),
                                false,
                            )
                    }
            }),
    {
        let ci: usize = self.resolve_col(column);
        let n: usize = self.data.len();
        let mut res: Vec<Vec<Cell>> = Vec::new();
        let mut picks: Ghost<Seq<int>> = Ghost(Seq::empty());
        let mut i: usize = 1;
        while i < n
            invariant
                1 <= i <= n == self@.len(),
                self@.len() == self.data@.len(),
                ci == spec_col(self@[0], column@),
                forall|k: int| 1 <= k < self@.len() ==> ci < (#[trigger] self@[k]).len(),
                forall|c: Cell| #[trigger] call_requires(predicate, (&c,)),
                res.deep_view().len() == picks@.len(),
                forall|k: int| 0 <= k < picks@.len() ==> 1 <= #[trigger] picks@[k] < i,
                forall|k1: int, k2: int|
                    0 <= k1 < k2 < picks@.len() ==> #[trigger] picks@[k1] < #[trigger] picks@[k2],
                forall|k: int|
                    0 <= k < picks@.len() ==> #[trigger] res.deep_view()[k] == self@[picks@[k]]
                        && call_ensures(predicate, (&self.data@[picks@[k]]@[ci as int],), true),
                forall|j: int|
                    1 <= j < i && !picks@.contains(j) ==> call_ensures(
                        predicate,
                        (&(#[trigger] self.data@[j])@[ci as int],),
                        false,
                    ),
            decreases n - i,
        {
            let row: &Vec<Cell> = &self.data[i];
            proof {
                assert(row@.len() == self@[i as int].len());
            }
            let cell: &Cell = &row[ci];
            let ghost pre = picks@;
            let ghost predeep = res.deep_view();
            if predicate(cell) {
                res.push(clone_row(row));
                proof {
                    picks@ = pre.push(i as int);
                    assert(res.deep_view() =~= predeep + seq![self@[i as int]]);
                    assert forall|j: int| pre.contains(j) implies #[trigger] picks@.contains(
                        j,
                    ) by {
                        let k = choose|k: int| 0 <= k < pre.len() && pre[k] == j;
                        assert(picks@[k] == j);
                    }
                    assert(picks@[pre.len() as int] == i as int);
                    assert(picks@.contains(i as int));
                }
            } else {
                proof {
                    assert(forall|j: int|
                        1 <= j < i + 1 && !picks@.contains(j) && j != i ==> call_ensures(
                            predicate,
                            (&(#[trigger] self.data@[j])@[ci as int],),
                            false,
                        ));
                }
            }
            i = i + 1;
        }
        res
    }

    /// Removes every body row whose cell in the named column satisfies the
    /// predicate; the header row is never evaluated and always survives,
    /// and the kept body rows stay in load order.
    pub fn drop_rows<F: Fn(&Cell) -> bool + Copy>(&mut self, column: &str, predicate: F)
        requires
            old(self)@.len() > 0,
            spec_col(old(self)@[0], column@) >= 0,
            forall|i: int|
                1 <= i < old(self)@.len() ==> spec_col(old(self)@[0], column@) < (#[trigger] old(
                    self,
                )@[i]).len(),
            forall|c: Cell| #[trigger] call_requires(predicate, (&c,)),
        ensures
            ({
                let ci = spec_col(old(self)@[0], column@);
                &&& final(self)@.len() >= 1
                &&& final(self)@[0] == old(self)@[0]
                &&& exists|picks: Seq<int>|
                    #![trigger picks.len()]
                    {
                        &&& final(self)@.len() == 1 + picks.len()
                        &&& forall|k: int| 0 <= k < picks.len() ==> 1 <= #[trigger] picks[k] < old(
                            self,
                        )@.len()
                        &&& forall|k1: int, k2: int|
                            0 <= k1 < k2 < picks.len() ==> #[trigger] picks[k1]
                                < #[trigger] picks[k2]
                        &&& forall|k: int|
                            0 <= k < picks.len() ==> #[trigger] final(self)@[k + 1] == old(
                                self,
                            )@[picks[k]] && call_ensures(
                                predicate,
                                (&old(self).data@[picks[k]]@[ci],),
                                false,
                            )
                        &&& forall|i: int|
                            1 <= i < old(self)@.len() && !picks.contains(i) ==> call_ensures(
                                predicate,
                                (&(#[trigger] old(self).data@[i])@[ci],),
                                true,
                            )
                    }
            }),
    {
        let ci: usize = self.resolve_col(column);
        let n: usize = self.data.len();
        let mut out: Vec<Vec<Cell>> = Vec::new();
        out.push(clone_row(&self.data[0]));
        let mut picks: Ghost<Seq<int>> = Ghost(Seq::empty());
        let mut i: usize = 1;
        while i < n
            invariant
                1 <= i <= n == self@.len(),
                self@ == old(self)@,
                self.data@ == old(self).data@,
                self@.len() == self.data@.len(),
                ci == spec_col(self@[0], column@),
                forall|k: int| 1 <= k < self@.len() ==> ci < (#[trigger] self@[k]).len(),
                forall|c: Cell| #[trigger] call_requires(predicate, (&c,)),
                out.deep_view().len() == 1 + picks@.len(),
                out.deep_view()[0] == self@[0],
                forall|k: int| 0 <= k < picks@.len() ==> 1 <= #[trigger] picks@[k] < i,
                forall|k1: int, k2: int|
                    0 <= k1 < k2 < picks@.len() ==> #[trigger] picks@[k1] < #[trigger] picks@[k2],
                forall|k: int|
                    0 <= k < picks@.len() ==> #[trigger] out.deep_view()[k + 1]
                        == self@[picks@[k]] && call_ensures(
                        predicate,
                        (&self.data@[picks@[k]]@[ci as int],),
                        false,
                    ),
                forall|j: int|
                    1 <= j < i && !picks@.contains(j) ==> call_ensures(
                        predicate,
                        (&(#[trigger] self.data@[j])@[ci as int],),
                        true,
                    ),
            decreases n - i,
        {
            let row: &Vec<Cell> = &self.data[i];
            proof {
                assert(row@.len() == self@[i as int].len());
            }
            let cell: &Cell = &row[ci];
            let ghost pre = picks@;
            let ghost predeep = out.deep_view();
            if !predicate(cell) {
                out.push(clone_row(row));
                proof {
                    picks@ = pre.push(i as int);
                    assert(out.deep_view() =~= predeep + seq![self@[i as int]]);
                    assert forall|j: int| pre.contains(j) implies #[trigger] picks@.contains(
                        j,
                    ) by {
                        let k = choose|k: int| 0 <= k < pre.len() && pre[k] == j;
                        assert(picks@[k] == j);
                    }
                    assert(picks@[pre.len() as int] == i as int);
                    assert(picks@.contains(i as int));
                    assert(out.deep_view()[pre.len() as int + 1] == self@[i as int]);
                    assert(call_ensures(predicate, (&self.data@[i as int]@[ci as int],), false));
                }
            }
            i = i + 1;
        }
        self.data = out;
        proof {
            assert(final(self)@.len() == 1 + picks@.len());
        }
    }

    /// Applies the transformation to the named column's cell in every row,
    /// the header included. A missing column is the one mutator fault
    /// reported as a recoverable error, with the grid left untouched.
    pub fn map<F: Fn(Cell) -> Cell>(&mut self, column: &str, transform: F) -> (r: Result<
        (),
        String,
    >)
        requires
            old(self)@.len() > 0,
            spec_col(old(self)@[0], column@) >= 0 ==> forall|i: int|
                0 <= i < old(self)@.len() ==> spec_col(old(self)@[0], column@) < (#[trigger] old(
                    self,
                )@[i]).len(),
            forall|c: Cell| #[trigger] call_requires(transform, (c,)),
        ensures
            spec_col(old(self)@[0], column@) == -1 ==> final(self)@ == old(self)@ && (r matches Err(
                m,
            ) && m@ == "could not find column '"@ + column@ + "'"@),
            spec_col(old(self)@[0], column@) >= 0 ==> r is Ok && final(self)@.len() == old(
                self,
            )@.len() && (forall|i: int|
                0 <= i < old(self)@.len() ==> call_ensures(
                    transform,
                    (old(self).data@[i]@[spec_col(old(self)@[0], column@)],),
                    #[trigger] final(self).data@[i]@[spec_col(old(self)@[0], column@)],
                ) && final(self)@[i] == old(self)@[i].update(
                    spec_col(old(self)@[0], column@),
                    final(self).data@[i]@[spec_col(old(self)@[0], column@)]@,
                )),
    {
        let found: Option<usize> = self.get_col_index(column);
        match found {
            None => {
                let mut msg: String = "could not find column '".to_owned();
                msg.append(column);
                msg.append("'");
                Err(msg)
            },
            Some(ci) => {
                let n: usize = self.data.len();
                let mut i: usize = 0;
                while i < n
                    invariant
                        0 <= i <= n,
                        n == old(self)@.len(),
                        self@.len() == n,
                        self@.len() == self.data@.len(),
                        0 <= ci == spec_col(old(self)@[0], column@),
                        forall|k: int| 0 <= k < n ==> ci < (#[trigger] old(self)@[k]).len(),
                        forall|c: Cell| #[trigger] call_requires(transform, (c,)),
                        forall|k: int|
                            0 <= k < i ==> call_ensures(
                                transform,
                                (old(self).data@[k]@[ci as int],),
                                #[trigger] self.data@[k]@[ci as int],
                            ) && self@[k] == old(self)@[k].update(
                                ci as int,
                                self.data@[k]@[ci as int]@,
                            ),
                        forall|k: int| i <= k < n ==> #[trigger] self@[k] == old(self)@[k],
                        forall|k: int| i <= k < n ==> self.data@[k] == old(self).data@[k],
                    decreases n - i,
                {
                    let ghost pregrid = self@;
                    let ghost predata = self.data@;
                    proof {
                        assert(self@[i as int] == old(self)@[i as int]);
                        assert(ci < old(self)@[i as int].len());
                        assert(self.data@[i as int]@.len() == self@[i as int].len());
                    }
                    let row: &Vec<Cell> = &self.data[i];
                    let c: Cell = row[ci].clone();
                    let nc: Cell = transform(c);
                    let ghost ncg = nc;
                    self.data[i].set(ci, nc);
                    proof {
                        assert(forall|k: int|
                            0 <= k < n && k != i ==> self.data@[k] == #[trigger] predata[k]);
                        assert(forall|k: int|
                            0 <= k < n && k != i ==> #[trigger] self@[k] == pregrid[k]);
                        assert(self.data@[i as int]@[ci as int] == nc);
                        assert(self@[i as int] =~= pregrid[i as int].update(
                            ci as int,
                            self.data@[i as int]@[ci as int]@,
                        ));
                        assert(self.data@[i as int]@[ci as int] == ncg);
                        assert(call_ensures(
                            transform,
                            (old(self).data@[i as int]@[ci as int],),
                            ncg,
                        ));
                        assert(self@[i as int] == old(self)@[i as int].update(
                            ci as int,
                            ncg@,
                        ));
                    }
                    i = i + 1;
                }
                Ok(())
            },
        }
    }
}

} // verus!
