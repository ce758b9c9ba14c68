use vstd::prelude::*;
use crate::cell::{Cell, CellView};
use crate::ieee::{double_add, double_add_exec, double_div, double_div_exec, double_mul,
    double_mul_exec, double_of_i64, double_of_i64_exec, double_of_u64, double_of_u64_exec,
    double_sub, double_sub_exec};
use crate::sheet::{spec_col, Sheet, TableError};

verus! {

/// The cell carries a number: an integer or a double.
pub open spec fn is_numeric_cell(c: CellView) -> bool {
    c is Int || c is Float
}

/// The numeric value of a cell as a double bit pattern: an integer cell
/// widened to the nearest double, a floating cell as stored.
pub open spec fn cell_bits(c: CellView) -> u64 {
    match c {
        CellView::Int(x) => double_of_i64(x),
        CellView::Float(b) => b,
        _ => 0,
    }
}

/// Every body cell of column `ci` carries a number.
pub open spec fn col_is_numeric(grid: Seq<Seq<CellView>>, ci: int) -> bool {
    forall|i: int| 1 <= i < grid.len() ==> is_numeric_cell((#[trigger] grid[i])[ci])
}

/// Every body cell of column `ci` is an integer.
pub open spec fn col_is_int(grid: Seq<Seq<CellView>>, ci: int) -> bool {
    forall|i: int| 1 <= i < grid.len() ==> (#[trigger] grid[i])[ci] is Int
}

/// The double sum of column `ci` over body rows `i` and later, folded left
/// onto `acc` in row order.
pub open spec fn spec_col_sum(grid: Seq<Seq<CellView>>, ci: int, i: int, acc: u64) -> u64
    decreases grid.len() - i,
{
    if i < 1 || i >= grid.len() {
        acc
    } else {
        spec_col_sum(grid, ci, i + 1, double_add(acc, cell_bits(grid[i][ci])))
    }
}

/// The arithmetic mean of a numeric column: its double sum, beginning at
/// positive zero, divided by the number of body rows.
pub open spec fn spec_mean(grid: Seq<Seq<CellView>>, ci: int) -> u64 {
    double_div(spec_col_sum(grid, ci, 1, 0), double_of_u64((grid.len() - 1) as u64))
}

/// The double sum of squared deviations from `m` over body rows `i` and
/// later, folded left onto `acc` in row order.
pub open spec fn spec_var_sum(grid: Seq<Seq<CellView>>, ci: int, m: u64, i: int, acc: u64) -> u64
    decreases grid.len() - i,
{
    if i < 1 || i >= grid.len() {
        acc
    } else {
        let d = double_sub(cell_bits(grid[i][ci]), m);
        spec_var_sum(grid, ci, m, i + 1, double_add(acc, double_mul(d, d)))
    }
}

/// The population variance of a numeric column: the average of squared
/// deviations from the mean, divided by the body-row count, not one less.
pub open spec fn spec_variance(grid: Seq<Seq<CellView>>, ci: int) -> u64 {
    double_div(
        spec_var_sum(grid, ci, spec_mean(grid, ci), 1, 0),
        double_of_u64((grid.len() - 1) as u64),
    )
}

impl Sheet {
    /// The arithmetic mean of the named column over body rows, as a double
    /// bit pattern; a body cell that is not a number is reported as an
    /// error instead.
    pub fn mean(&self, column: &str) -> (r: Result<u64, TableError>)
        requires
            self@.len() > 0,
            spec_col(self@[0], column@) >= 0,
            forall|i: int|
                1 <= i < self@.len() ==> spec_col(self@[0], column@) < (#[trigger] self@[i]).len(),
        ensures
            ({
                let ci = spec_col(self@[0], column@);
                if col_is_numeric(self@, ci) {
                    r == Ok::<u64, TableError>(spec_mean(self@, ci))
                } else {
                    r == Err::<u64, TableError>(TableError::NonNumericCell)
                }
            }),
    {
        let ci: usize = self.resolve_col(column);
        let n: usize = self.data.len();
        let mut sum: u64 = 0;
        let mut i: usize = 1;
        while i < n
            invariant
                1 <= i <= n == self@.len(),
                self@.len() == self.data@.len(),
                ci == spec_col(self@[0], column@),
                forall|k: int| 1 <= k < self@.len() ==> ci < (#[trigger] self@[k]).len(),
                forall|j: int| 1 <= j < i ==> is_numeric_cell((#[trigger] self@[j])[ci as int]),
                spec_col_sum(self@, ci as int, 1, 0) == spec_col_sum(
                    self@,
                    ci as int,
                    i as int,
                    sum,
                ),
            decreases n - i,
        {
            let row: &Vec<Cell> = &self.data[i];
            proof {
                assert(row@.len() == self@[i as int].len());
            }
            let ghost presum = sum;
            let val_bits: u64;
            match &row[ci] {
                Cell::Int(x) => {
                    val_bits = double_of_i64_exec(*x);
                },
                Cell::Float(b) => {
                    val_bits = *b;
                },
                _ => {
                    proof {
                        assert(!is_numeric_cell(self@[i as int][ci as int]));
                    }
                    return Err(TableError::NonNumericCell);
                },
            }
            proof {
                assert(val_bits == cell_bits(self@[i as int][ci as int]));
            }
            sum = double_add_exec(sum, val_bits);
            proof {
                assert(spec_col_sum(self@, ci as int, i as int, presum) == spec_col_sum(
                    self@,
                    ci as int,
                    i as int + 1,
                    double_add(presum, cell_bits(self@[i as int][ci as int])),
                ));
            }
            i = i + 1;
        }
        let count: u64 = (n - 1) as u64;
        Ok(double_div_exec(sum, double_of_u64_exec(count)))
    }

    /// The population variance of the named column over body rows, as a
    /// double bit pattern: squared deviations from the mean are averaged
    /// over the body-row count. A body cell that is not a number is
    /// reported as an error instead.
    pub fn variance(&self, column: &str) -> (r: Result<u64, TableError>)
        requires
            self@.len() > 0,
            spec_col(self@[0], column@) >= 0,
            forall|i: int|
                1 <= i < self@.len() ==> spec_col(self@[0], column@) < (#[trigger] self@[i]).len(),
        ensures
            ({
                let ci = spec_col(self@[0], column@);
                if col_is_numeric(self@, ci) {
                    r == Ok::<u64, TableError>(spec_variance(self@, ci))
                } else {
                    r == Err::<u64, TableError>(TableError::NonNumericCell)
                }
            }),
    {
        let m: u64;
        match self.mean(column) {
            Ok(v) => {
                m = v;
            },
            Err(e) => {
                return Err(e);
            },
        }
        let ci: usize = self.resolve_col(column);
        let n: usize = self.data.len();
        let mut total: u64 = 0;
        let mut i: usize = 1;
        while i < n
            invariant
                1 <= i <= n == self@.len(),
                self@.len() == self.data@.len(),
                ci == spec_col(self@[0], column@),
                m == spec_mean(self@, ci as int),
                col_is_numeric(self@, ci as int),
                forall|k: int| 1 <= k < self@.len() ==> ci < (#[trigger] self@[k]).len(),
                spec_var_sum(self@, ci as int, m, 1, 0) == spec_var_sum(
                    self@,
                    ci as int,
                    m,
                    i as int,
                    total,
                ),
            decreases n - i,
        {
            let row: &Vec<Cell> = &self.data[i];
            proof {
                assert(row@.len() == self@[i as int].len());
                assert(is_numeric_cell(self@[i as int][ci as int]));
            }
            let ghost pretotal = total;
            let val_bits: u64;
            match &row[ci] {
                Cell::Int(x) => {
                    val_bits = double_of_i64_exec(*x);
                },
                Cell::Float(b) => {
                    val_bits = *b;
                },
                _ => {
                    // the mean call has already checked the column numeric
                    proof {
                        assert(false);
                    }
                    return Err(TableError::NonNumericCell);
                },
            }
            proof {
                assert(val_bits == cell_bits(self@[i as int][ci as int]));
            }
            let d: u64 = double_sub_exec(val_bits, m);
            total = double_add_exec(total, double_mul_exec(d, d));
            proof {
                assert(spec_var_sum(self@, ci as int, m, i as int, pretotal) == spec_var_sum(
                    self@,
                    ci as int,
                    m,
                    i as int + 1,
                    double_add(
                        pretotal,
                        double_mul(
                            double_sub(cell_bits(self@[i as int][ci as int]), m),
                            double_sub(cell_bits(self@[i as int][ci as int]), m),
                        ),
                    ),
                ));
            }
            i = i + 1;
        }
        let count: u64 = (n - 1) as u64;
        Ok(double_div_exec(total, double_of_u64_exec(count)))
    }
}

/// The largest integer in column `ci` from body row `i` on, folded onto
/// `acc`; the fold starts at zero, so an all-negative column reports zero.
pub open spec fn spec_max_i64_from(grid: Seq<Seq<CellView>>, ci: int, i: int, acc: i64) -> i64
    decreases grid.len() - i,
{
    if i < 1 || i >= grid.len() {
        acc
    } else {
        let v = grid[i][ci]->Int_0;
        spec_max_i64_from(
            grid,
            ci,
            i + 1,
            if acc < v {
                v
            } else {
                acc
            },
        )
    }
}

/// The smallest integer in column `ci` from body row `i` on, folded onto
/// `acc`.
pub open spec fn spec_min_i64_from(grid: Seq<Seq<CellView>>, ci: int, i: int, acc: i64) -> i64
    decreases grid.len() - i,
{
    if i < 1 || i >= grid.len() {
        acc
    } else {
        let v = grid[i][ci]->Int_0;
        spec_min_i64_from(
            grid,
            ci,
            i + 1,
            if acc > v {
                v
            } else {
                acc
            },
        )
    }
}

/// The smallest integer of an integer column, seeded from the first body
/// value; a grid without body rows reports zero.
pub open spec fn spec_min_int(grid: Seq<Seq<CellView>>, ci: int) -> i64 {
    if grid.len() <= 1 {
        0
    } else {
        spec_min_i64_from(grid, ci, 2, grid[1][ci]->Int_0)
    }
}

/// The largest double in column `ci` from body row `i` on, folded onto
/// `acc` under IEEE `<`; the fold starts at positive zero, so an
/// all-negative column reports zero.
pub open spec fn spec_max_f64_from(grid: Seq<Seq<CellView>>, ci: int, i: int, acc: u64) -> u64
    decreases grid.len() - i,
{
    if i < 1 || i >= grid.len() {
        acc
    } else {
        let v = cell_bits(grid[i][ci]);
        spec_max_f64_from(
            grid,
            ci,
            i + 1,
            if crate::ieee::double_lt(acc, v) {
                v
            } else {
                acc
            },
        )
    }
}

/// The smallest double in column `ci` from body row `i` on, folded onto
/// `acc` under IEEE `<`.
pub open spec fn spec_min_f64_from(grid: Seq<Seq<CellView>>, ci: int, i: int, acc: u64) -> u64
    decreases grid.len() - i,
{
    if i < 1 || i >= grid.len() {
        acc
    } else {
        let v = cell_bits(grid[i][ci]);
        spec_min_f64_from(
            grid,
            ci,
            i + 1,
            if crate::ieee::double_lt(v, acc) {
                v
            } else {
                acc
            },
        )
    }
}

/// The smallest double of a numeric column, seeded from the first body
/// value; a grid without body rows reports positive zero.
pub open spec fn spec_min_float(grid: Seq<Seq<CellView>>, ci: int) -> u64 {
    if grid.len() <= 1 {
        0
    } else {
        spec_min_f64_from(grid, ci, 2, cell_bits(grid[1][ci]))
    }
}

impl Sheet {
    /// The largest 64-bit integer of the named column over body rows; the
    /// running maximum starts at zero, so an all-negative column reports
    /// zero. A body cell that is not an integer is reported as an error.
    pub fn max_int64(&self, column: &str) -> (r: Result<i64, TableError>)
        requires
            self@.len() > 0,
            spec_col(self@[0], column@) >= 0,
            forall|i: int|
                1 <= i < self@.len() ==> spec_col(self@[0], column@) < (#[trigger] self@[i]).len(),
        ensures
            ({
                let ci = spec_col(self@[0], column@);
                if col_is_int(self@, ci) {
                    r == Ok::<i64, TableError>(spec_max_i64_from(self@, ci, 1, 0))
                } else {
                    r == Err::<i64, TableError>(TableError::NonIntCell)
                }
            }),
    {
        let ci: usize = self.resolve_col(column);
        let n: usize = self.data.len();
        let mut max: i64 = 0;
        let mut i: usize = 1;
        while i < n
            invariant
                1 <= i <= n == self@.len(),
                self@.len() == self.data@.len(),
                ci == spec_col(self@[0], column@),
                forall|k: int| 1 <= k < self@.len() ==> ci < (#[trigger] self@[k]).len(),
                forall|j: int| 1 <= j < i ==> (#[trigger] self@[j])[ci as int] is Int,
                spec_max_i64_from(self@, ci as int, 1, 0) == spec_max_i64_from(
                    self@,
                    ci as int,
                    i as int,
                    max,
                ),
            decreases n - i,
        {
            let row: &Vec<Cell> = &self.data[i];
            proof {
                assert(row@.len() == self@[i as int].len());
            }
            let ghost premax = max;
            let v: i64;
            match &row[ci] {
                Cell::Int(x) => {
                    v = *x;
                },
                _ => {
                    proof {
                        assert(!(self@[i as int][ci as int] is Int));
                    }
                    return Err(TableError::NonIntCell);
                },
            }
            if max < v {
                max = v;
            }
            proof {
                assert(spec_max_i64_from(self@, ci as int, i as int, premax) == spec_max_i64_from(
                    self@,
                    ci as int,
                    i as int + 1,
                    max,
                ));
            }
            i = i + 1;
        }
        Ok(max)
    }

    /// The smallest 64-bit integer of the named column over body rows,
    /// seeded from the first body value. A body cell that is not an
    /// integer is reported as an error.
    pub fn min_int64(&self, column: &str) -> (r: Result<i64, TableError>)
        requires
            self@.len() > 0,
            spec_col(self@[0], column@) >= 0,
            forall|i: int|
                1 <= i < self@.len() ==> spec_col(self@[0], column@) < (#[trigger] self@[i]).len(),
        ensures
            ({
                let ci = spec_col(self@[0], column@);
                if col_is_int(self@, ci) {
                    r == Ok::<i64, TableError>(spec_min_int(self@, ci))
                } else {
                    r == Err::<i64, TableError>(TableError::NonIntCell)
                }
            }),
    {
        let ci: usize = self.resolve_col(column);
        let n: usize = self.data.len();
        let mut min: i64 = 0;
        let mut i: usize = 1;
        while i < n
            invariant
                1 <= i <= n == self@.len(),
                self@.len() == self.data@.len(),
                ci == spec_col(self@[0], column@),
                forall|k: int| 1 <= k < self@.len() ==> ci < (#[trigger] self@[k]).len(),
                forall|j: int| 1 <= j < i ==> (#[trigger] self@[j])[ci as int] is Int,
                i == 1 ==> min == 0,
                i >= 2 ==> spec_min_int(self@, ci as int) == spec_min_i64_from(
                    self@,
                    ci as int,
                    i as int,
                    min,
                ),
            decreases n - i,
        {
            let row: &Vec<Cell> = &self.data[i];
            proof {
                assert(row@.len() == self@[i as int].len());
            }
            let ghost premin = min;
            let v: i64;
            match &row[ci] {
                Cell::Int(x) => {
                    v = *x;
                },
                _ => {
                    proof {
                        assert(!(self@[i as int][ci as int] is Int));
                    }
                    return Err(TableError::NonIntCell);
                },
            }
            if i == 1 {
                min = v;
            } else {
                if min > v {
                    min = v;
                }
                proof {
                    assert(spec_min_i64_from(self@, ci as int, i as int, premin)
                        == spec_min_i64_from(self@, ci as int, i as int + 1, min));
                }
            }
            i = i + 1;
        }
        Ok(min)
    }

    /// The largest double of the named column over body rows, integers
    /// widened; the running maximum starts at positive zero, so an
    /// all-negative column reports zero. A body cell that is not a number
    /// is reported as an error.
    pub fn max_float64(&self, column: &str) -> (r: Result<u64, TableError>)
        requires
            self@.len() > 0,
            spec_col(self@[0], column@) >= 0,
            forall|i: int|
                1 <= i < self@.len() ==> spec_col(self@[0], column@) < (#[trigger] self@[i]).len(),
        ensures
            ({
                let ci = spec_col(self@[0], column@);
                if col_is_numeric(self@, ci) {
                    r == Ok::<u64, TableError>(spec_max_f64_from(self@, ci, 1, 0))
                } else {
                    r == Err::<u64, TableError>(TableError::NonNumericCell)
                }
            }),
    {
        let ci: usize = self.resolve_col(column);
        let n: usize = self.data.len();
        let mut max: u64 = 0;
        let mut i: usize = 1;
        while i < n
            invariant
                1 <= i <= n == self@.len(),
                self@.len() == self.data@.len(),
                ci == spec_col(self@[0], column@),
                forall|k: int| 1 <= k < self@.len() ==> ci < (#[trigger] self@[k]).len(),
                forall|j: int| 1 <= j < i ==> is_numeric_cell((#[trigger] self@[j])[ci as int]),
                spec_max_f64_from(self@, ci as int, 1, 0) == spec_max_f64_from(
                    self@,
                    ci as int,
                    i as int,
                    max,
                ),
            decreases n - i,
        {
            let row: &Vec<Cell> = &self.data[i];
            proof {
                assert(row@.len() == self@[i as int].len());
            }
            let ghost premax = max;
            let v: u64;
            match &row[ci] {
                Cell::Float(b) => {
                    v = *b;
                },
                Cell::Int(x) => {
                    v = double_of_i64_exec(*x);
                },
                _ => {
                    proof {
                        assert(!is_numeric_cell(self@[i as int][ci as int]));
                    }
                    return Err(TableError::NonNumericCell);
                },
            }
            proof {
                assert(v == cell_bits(self@[i as int][ci as int]));
            }
            if crate::ieee::double_lt_exec(max, v) {
                max = v;
            }
            proof {
                assert(spec_max_f64_from(self@, ci as int, i as int, premax) == spec_max_f64_from(
                    self@,
                    ci as int,
                    i as int + 1,
                    max,
                ));
            }
            i = i + 1;
        }
        Ok(max)
    }

    /// The smallest double of the named column over body rows, integers
    /// widened, seeded from the first body value. A body cell that is not
    /// a number is reported as an error.
    pub fn min_float64(&self, column: &str) -> (r: Result<u64, TableError>)
        requires
            self@.len() > 0,
            spec_col(self@[0], column@) >= 0,
            forall|i: int|
                1 <= i < self@.len() ==> spec_col(self@[0], column@) < (#[trigger] self@[i]).len(),
        ensures
            ({
                let ci = spec_col(self@[0], column@);
                if col_is_numeric(self@, ci) {
                    r == Ok::<u64, TableError>(spec_min_float(self@, ci))
                } else {
                    r == Err::<u64, TableError>(TableError::NonNumericCell)
                }
            }),
    {
        let ci: usize = self.resolve_col(column);
        let n: usize = self.data.len();
        let mut min: u64 = 0;
        let mut i: usize = 1;
        while i < n
            invariant
                1 <= i <= n == self@.len(),
                self@.len() == self.data@.len(),
                ci == spec_col(self@[0], column@),
                forall|k: int| 1 <= k < self@.len() ==> ci < (#[trigger] self@[k]).len(),
                forall|j: int| 1 <= j < i ==> is_numeric_cell((#[trigger] self@[j])[ci as int]),
                i == 1 ==> min == 0,
                i >= 2 ==> spec_min_float(self@, ci as int) == spec_min_f64_from(
                    self@,
                    ci as int,
                    i as int,
                    min,
                ),
            decreases n - i,
        {
            let row: &Vec<Cell> = &self.data[i];
            proof {
                assert(row@.len() == self@[i as int].len());
            }
            let ghost premin = min;
            let v: u64;
            match &row[ci] {
                Cell::Float(b) => {
                    v = *b;
                },
                Cell::Int(x) => {
                    v = double_of_i64_exec(*x);
                },
                _ => {
                    proof {
                        assert(!is_numeric_cell(self@[i as int][ci as int]));
                    }
                    return Err(TableError::NonNumericCell);
                },
            }
            proof {
                assert(v == cell_bits(self@[i as int][ci as int]));
            }
            if i == 1 {
                min = v;
            } else {
                if crate::ieee::double_lt_exec(v, min) {
                    min = v;
                }
                proof {
                    assert(spec_min_f64_from(self@, ci as int, i as int, premin)
                        == spec_min_f64_from(self@, ci as int, i as int + 1, min));
                }
            }
            i = i + 1;
        }
        Ok(min)
    }
}

/// Position of the first table entry that holds cell `c`, at or after `i`,
/// or -1 when there is none.
pub open spec fn fq_find(fq: Seq<(CellView, int)>, c: CellView, i: int) -> int
    decreases fq.len() - i,
{
    if i < 0 || i >= fq.len() {
        -1
    } else if fq[i].0 == c {
        i
    } else {
        fq_find(fq, c, i + 1)
    }
}

/// One cell recorded into the table: a first occurrence appends an entry
/// with count one, a repeated one raises its entry's count.
pub open spec fn fq_bump(fq: Seq<(CellView, int)>, c: CellView) -> Seq<(CellView, int)> {
    let p = fq_find(fq, c, 0);
    if p < 0 {
        fq.push((c, 1))
    } else {
        fq.update(p, (c, fq[p].1 + 1))
    }
}

/// The frequency table of column `ci` over body rows `i` and later,
/// accumulated onto `fq` in encounter order.
pub open spec fn spec_freq_from(
    grid: Seq<Seq<CellView>>,
    ci: int,
    i: int,
    fq: Seq<(CellView, int)>,
) -> Seq<(CellView, int)>
    decreases grid.len() - i,
{
    if i < 1 || i >= grid.len() {
        fq
    } else {
        spec_freq_from(grid, ci, i + 1, fq_bump(fq, grid[i][ci]))
    }
}

/// The frequency table of column `ci`: each distinct body cell with its
/// occurrence count, in encounter order.
pub open spec fn spec_freq(grid: Seq<Seq<CellView>>, ci: int) -> Seq<(CellView, int)> {
    spec_freq_from(grid, ci, 1, Seq::empty())
}

/// View of an in-memory frequency table.
pub open spec fn fq_view(fq: Seq<(Cell, i32)>) -> Seq<(CellView, int)> {
    Seq::new(fq.len(), |k: int| (fq[k].0@, fq[k].1 as int))
}

/// The mode scan from entry `i` on: an entry whose count reaches the
/// running maximum seen so far joins the result and raises that maximum,
/// so the list may keep early entries that a later, larger count outgrows.
pub open spec fn spec_mode_from(
    fq: Seq<(CellView, int)>,
    i: int,
    mx: int,
    acc: Seq<(CellView, int)>,
) -> Seq<(CellView, int)>
    decreases fq.len() - i,
{
    if i < 0 || i >= fq.len() {
        acc
    } else if mx <= fq[i].1 {
        spec_mode_from(fq, i + 1, fq[i].1, acc.push(fq[i]))
    } else {
        spec_mode_from(fq, i + 1, mx, acc)
    }
}

/// The most frequent cells of column `ci`, by the incremental scan of the
/// frequency table with a running maximum that starts at zero.
pub open spec fn spec_mode(grid: Seq<Seq<CellView>>, ci: int) -> Seq<(CellView, int)> {
    spec_mode_from(spec_freq(grid, ci), 0, 0, Seq::empty())
}

/// A scan that matched nothing before `p`, and a match or the end at `p`,
/// has found the first entry for the cell.
proof fn lemma_fq_find(fq: Seq<(CellView, int)>, c: CellView, i: int, p: int)
    requires
        0 <= i <= p <= fq.len(),
        forall|j: int| i <= j < p ==> (#[trigger] fq[j]).0 != c,
        p == fq.len() || fq[p].0 == c,
    ensures
        fq_find(fq, c, i) == if p == fq.len() {
            -1int
        } else {
            p
        },
    decreases p - i,
{
    if i < p {
        lemma_fq_find(fq, c, i + 1, p);
    }
}

/// Position of the first table entry holding `c`, or none.
fn find_cell(fq: &Vec<(Cell, i32)>, c: &Cell) -> (r: Option<usize>)
    ensures
        match r {
            Some(p) => fq_find(fq_view(fq@), c@, 0) == p && p < fq@.len() && fq_view(
                fq@,
            )[p as int].0 == c@,
            None => fq_find(fq_view(fq@), c@, 0) == -1,
        },
{
    let n: usize = fq.len();
    let mut k: usize = 0;
    while k < n
        invariant
            0 <= k <= n == fq@.len(),
            forall|j: int| 0 <= j < k ==> (#[trigger] fq_view(fq@)[j]).0 != c@,
        decreases n - k,
    {
        let entry: &(Cell, i32) = &fq[k];
        if entry.0 == *c {
            proof {
                assert(fq_view(fq@)[k as int].0 == c@);
                lemma_fq_find(fq_view(fq@), c@, 0, k as int);
            }
            return Some(k);
        }
        proof {
            assert(fq_view(fq@)[k as int].0 != c@);
        }
        k = k + 1;
    }
    proof {
        lemma_fq_find(fq_view(fq@), c@, 0, n as int);
    }
    None
}

impl Sheet {
    /// The frequency table of the column at `col_index` over body rows:
    /// each distinct cell with its occurrence count, in encounter order.
    fn build_frequency_table(&self, col_index: usize) -> (fq: Vec<(Cell, i32)>)
        requires
            self@.len() > 0,
            self@.len() <= i32::MAX,
            forall|i: int| 1 <= i < self@.len() ==> col_index < (#[trigger] self@[i]).len(),
        ensures
            fq_view(fq@) == spec_freq(self@, col_index as int),
    {
        let ci: usize = col_index;
        let n: usize = self.data.len();
        let mut fq: Vec<(Cell, i32)> = Vec::new();
        proof {
            assert(fq_view(fq@) =~= Seq::<(CellView, int)>::empty());
        }
        let mut i: usize = 1;
        while i < n
            invariant
                1 <= i <= n == self@.len(),
                self@.len() == self.data@.len(),
                n <= i32::MAX,
                ci == col_index,
                forall|k: int| 1 <= k < self@.len() ==> ci < (#[trigger] self@[k]).len(),
                forall|k: int| 0 <= k < fq@.len() ==> 1 <= (#[trigger] fq@[k]).1 <= i - 1,
                spec_freq(self@, ci as int) == spec_freq_from(
                    self@,
                    ci as int,
                    i as int,
                    fq_view(fq@),
                ),
            decreases n - i,
        {
            let row: &Vec<Cell> = &self.data[i];
            proof {
                assert(row@.len() == self@[i as int].len());
            }
            let cref: &Cell = &row[ci];
            proof {
                assert(cref@ == self@[i as int][ci as int]);
            }
            let ghost prefq = fq_view(fq@);
            let ghost prevec = fq@;
            match find_cell(&fq, cref) {
                Some(idx) => {
                    proof {
                        assert(fq_find(prefq, self@[i as int][ci as int], 0) == idx as int);
                    }
                    let entry: &(Cell, i32) = &fq[idx];
                    let cell_copy: Cell = entry.0.clone();
                    let count: i32 = entry.1;
                    proof {
                        assert(cell_copy@ == prefq[idx as int].0);
                        assert(count as int == prefq[idx as int].1);
                    }
                    fq.set(idx, (cell_copy, count + 1));
                    proof {
                        let c = self@[i as int][ci as int];
                        let bumped = fq_bump(prefq, c);
                        assert(prefq[idx as int].0 == c);
                        assert(bumped == prefq.update(
                            idx as int,
                            (c, prefq[idx as int].1 + 1),
                        ));
                        assert(fq@ == prevec.update(idx as int, (cell_copy, (count + 1) as i32)));
                        assert forall|k2: int|
                            0 <= k2 < bumped.len() implies fq_view(fq@)[k2] == bumped[k2] by {
                            if k2 == idx as int {
                                assert(fq@[k2] == (cell_copy, (count + 1) as i32));
                                assert(fq_view(fq@)[k2] == (cell_copy@, (count + 1) as int));
                                assert(bumped[k2] == (c, prefq[idx as int].1 + 1));
                            } else {
                                assert(fq@[k2] == prevec[k2]);
                                assert(fq_view(fq@)[k2] == prefq[k2]);
                            }
                        }
                        assert(fq_view(fq@) =~= bumped);
                    }
                },
                None => {
                    fq.push((cref.clone(), 1));
                    proof {
                        assert(fq_view(fq@) =~= fq_bump(prefq, self@[i as int][ci as int]));
                    }
                },
            }
            proof {
                assert(spec_freq_from(self@, ci as int, i as int, prefq) == spec_freq_from(
                    self@,
                    ci as int,
                    i as int + 1,
                    fq_bump(prefq, self@[i as int][ci as int]),
                ));
            }
            i = i + 1;
        }
        fq
    }

    /// The most frequent cells of the named column, with their counts:
    /// the frequency table is scanned left to right and every entry whose
    /// count reaches the running maximum joins the result, so ties are
    /// kept and early smaller prefixes may remain.
    pub fn mode(&self, column: &str) -> (r: Vec<(Cell, i32)>)
        requires
            self@.len() > 0,
            self@.len() <= i32::MAX,
            spec_col(self@[0], column@) >= 0,
            forall|i: int|
                1 <= i < self@.len() ==> spec_col(self@[0], column@) < (#[trigger] self@[i]).len(),
        ensures
            fq_view(r@) == spec_mode(self@, spec_col(self@[0], column@)),
    {
        let ci: usize = self.resolve_col(column);
        let fq: Vec<(Cell, i32)> = self.build_frequency_table(ci);
        let m: usize = fq.len();
        let mut max: i32 = 0;
        let mut multi_mode: Vec<(Cell, i32)> = Vec::new();
        proof {
            assert(fq_view(multi_mode@) =~= Seq::<(CellView, int)>::empty());
        }
        let mut k: usize = 0;
        while k < m
            invariant
                0 <= k <= m == fq@.len(),
                fq_view(fq@) == spec_freq(self@, ci as int),
                ci == spec_col(self@[0], column@),
                spec_mode(self@, ci as int) == spec_mode_from(
                    fq_view(fq@),
                    k as int,
                    max as int,
                    fq_view(multi_mode@),
                ),
            decreases m - k,
        {
            let entry: &(Cell, i32) = &fq[k];
            let ghost premode = fq_view(multi_mode@);
            let ghost premax = max;
            if max <= entry.1 {
                max = entry.1;
                multi_mode.push((entry.0.clone(), entry.1));
                proof {
                    assert(fq_view(multi_mode@) =~= premode.push(fq_view(fq@)[k as int]));
                }
            }
            proof {
                assert(spec_mode_from(fq_view(fq@), k as int, premax as int, premode)
                    == spec_mode_from(
                    fq_view(fq@),
                    k as int + 1,
                    max as int,
                    fq_view(multi_mode@),
                ));
            }
            k = k + 1;
        }
        multi_mode
    }
}

} // verus!
