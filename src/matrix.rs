//! Dense matrices over GF(2^8) whose columns are named variables.
use vstd::prelude::*;

use crate::names::{lex_le, lex_le_names, lemma_lex_total, lemma_lex_trans, base_name, base_of, contains_name, contains_str, contains_text, get_variable_if_sboxed, has_name, is_image, is_image_name};
use crate::field::{gf_mul, lemma_mul_one, lemma_mul_zero_left, lemma_mul_zero_right, low_byte, Number, DEFAULT_POLY};

verus! {

/// Failures of the matrix operations.
#[derive(Debug, Clone, Copy, PartialEq, Eq, Structural)]
pub enum MatrixError {
    /// A row or column index is past the end.
    IndexOutOfBounds,
    /// Under full elimination, this leading column had no nonzero entry
    /// among the rows not yet used as pivots.
    Singular { column: usize },
    /// A coefficient does not fit under the modulus.
    InvalidValue,
    /// The rows given do not all have the same length, or the names do not
    /// match the columns.
    ShapeMismatch,
    /// A variable removal found its column not made of a single unit pivot.
    ConsistencyViolation,
    /// A nonzero pivot in this column has no inverse: the modulus is not
    /// irreducible.
    NotInvertible { column: usize },
}

/// An elementary row operation.
pub enum RowOp {
    /// Exchange rows `a` and `b`.
    Swap { a: usize, b: usize },
    /// Multiply row `row` by `factor`, which must be invertible.
    Scale { row: usize, factor: u8 },
    /// Add `factor` times row `src` to row `dst`.
    AddScaled { dst: usize, factor: u8, src: usize },
}

/// The rows after applying `op`, with products reduced by the modulus of
/// low byte `low`.
pub open spec fn apply_op(rows: Seq<Seq<u8>>, op: RowOp, low: u8) -> Seq<Seq<u8>> {
    match op {
        RowOp::Swap { a, b } => rows.update(a as int, rows[b as int]).update(b as int, rows[a as int]),
        RowOp::Scale { row, factor } => rows.update(
            row as int,
            rows[row as int].map_values(|x: u8| gf_mul(x, factor, low)),
        ),
        RowOp::AddScaled { dst, factor, src } => rows.update(
            dst as int,
            Seq::new(rows[dst as int].len(), |l: int| rows[dst as int][l] ^ gf_mul(factor, rows[src as int][l], low)),
        ),
    }
}

/// `op` is an elementary operation on `n` rows: indices in range, a scaling
/// factor with an inverse, a row added to another one.
pub open spec fn op_valid(n: nat, op: RowOp, low: u8) -> bool {
    match op {
        RowOp::Swap { a, b } => a < n && b < n,
        RowOp::Scale { row, factor } => row < n && exists|g: u8| gf_mul(g, factor, low) == 1,
        RowOp::AddScaled { dst, factor, src } => dst < n && src < n && dst != src,
    }
}

/// The rows after applying `ops` in order.
pub open spec fn apply_ops(rows: Seq<Seq<u8>>, ops: Seq<RowOp>, low: u8) -> Seq<Seq<u8>>
    decreases ops.len(),
{
    if ops.len() == 0 {
        rows
    } else {
        apply_op(apply_ops(rows, ops.drop_last(), low), ops.last(), low)
    }
}

/// Every operation of `ops` is elementary on `n` rows.
pub open spec fn ops_valid(n: nat, ops: Seq<RowOp>, low: u8) -> bool {
    forall|i: int| 0 <= i < ops.len() ==> op_valid(n, #[trigger] ops[i], low)
}

proof fn lemma_apply_ops_concat(rows: Seq<Seq<u8>>, a: Seq<RowOp>, b: Seq<RowOp>, low: u8)
    ensures
        apply_ops(rows, a + b, low) == apply_ops(apply_ops(rows, a, low), b, low),
    decreases b.len(),
{
    if b.len() == 0 {
        assert(a + b =~= a);
    } else {
        assert((a + b).drop_last() =~= a + b.drop_last());
        assert((a + b).last() == b.last());
        lemma_apply_ops_concat(rows, a, b.drop_last(), low);
    }
}

/// The decimal digits of `n`.
pub open spec fn decimal(n: nat) -> Seq<char>
    decreases n,
{
    let d = seq!['0', '1', '2', '3', '4', '5', '6', '7', '8', '9'][(n % 10) as int];
    if n < 10 {
        seq![d]
    } else {
        decimal(n / 10).push(d)
    }
}

/// The synthetic name of column `i`.
pub open spec fn column_label(i: nat) -> Seq<char> {
    seq!['X', '_'] + decimal(i)
}

proof fn lemma_decimal_nonempty(n: nat)
    ensures
        decimal(n).len() >= 1,
    decreases n,
{
    if n >= 10 {
        lemma_decimal_nonempty(n / 10);
    }
}

/// Different numbers have different decimal writings.
proof fn lemma_decimal_injective(a: nat, b: nat)
    requires
        decimal(a) == decimal(b),
    ensures
        a == b,
    decreases a,
{
    let ds = seq!['0', '1', '2', '3', '4', '5', '6', '7', '8', '9'];
    lemma_decimal_nonempty(a / 10);
    lemma_decimal_nonempty(b / 10);
    let la = decimal(a).last();
    let lb = decimal(b).last();
    assert(la == ds[(a % 10) as int]);
    assert(lb == ds[(b % 10) as int]);
    assert(a % 10 == b % 10);
    if a >= 10 && b >= 10 {
        assert(decimal(a).drop_last() =~= decimal(a / 10));
        assert(decimal(b).drop_last() =~= decimal(b / 10));
        lemma_decimal_injective(a / 10, b / 10);
    } else if a >= 10 {
        assert(decimal(a).len() >= 2);
    } else if b >= 10 {
        assert(decimal(b).len() >= 2);
    }
}

/// The decimal digit `d`.
fn digit_str(d: usize) -> (r: &'static str)
    requires
        d < 10,
    ensures
        r@ == seq![seq!['0', '1', '2', '3', '4', '5', '6', '7', '8', '9'][d as int]],
{
    match d {
        0 => {
            proof {
                reveal_strlit("0");
            }
            "0"
        },
        1 => {
            proof {
                reveal_strlit("1");
            }
            "1"
        },
        2 => {
            proof {
                reveal_strlit("2");
            }
            "2"
        },
        3 => {
            proof {
                reveal_strlit("3");
            }
            "3"
        },
        4 => {
            proof {
                reveal_strlit("4");
            }
            "4"
        },
        5 => {
            proof {
                reveal_strlit("5");
            }
            "5"
        },
        6 => {
            proof {
                reveal_strlit("6");
            }
            "6"
        },
        7 => {
            proof {
                reveal_strlit("7");
            }
            "7"
        },
        8 => {
            proof {
                reveal_strlit("8");
            }
            "8"
        },
        _ => {
            proof {
                reveal_strlit("9");
            }
            "9"
        },
    }
}

/// The decimal digits of `n`.
pub fn decimal_digits(n: usize) -> (r: String)
    ensures
        r@ == decimal(n as nat),
    decreases n,
{
    if n < 10 {
        let d = digit_str(n);
        let r = d.to_owned();
        assert(r@ =~= decimal(n as nat));
        r
    } else {
        let mut r = decimal_digits(n / 10);
        let d = digit_str(n % 10);
        r.append(d);
        assert(r@ =~= decimal(n as nat));
        r
    }
}

/// The synthetic name `X_<i>` of column `i`.
fn make_column_label(i: usize) -> (r: String)
    ensures
        r@ == column_label(i as nat),
{
    let digits = decimal_digits(i);
    let mut r = "X_".to_owned();
    proof {
        reveal_strlit("X_");
    }
    r.append(digits.as_str());
    assert(r@ =~= column_label(i as nat));
    r
}

/// The view of a list of names as sequences of characters.
pub open spec fn names_view(v: Seq<String>) -> Seq<Seq<char>> {
    v.map_values(|s: String| s@)
}

/// A dense matrix of field elements; column `j` stands for the variable
/// `names[j]`.
#[derive(Debug)]
pub struct Matrix {
    names: Vec<String>,
    rows: usize,
    cols: usize,
    data: Vec<Vec<u8>>,
    poly: u16,
}

/// Returns the index of the first entry of `v` that equals `name`.
fn position_of(v: &Vec<String>, name: &String) -> (r: Option<usize>)
    ensures
        match r {
            Some(j) => j < v@.len() && v@[j as int]@ == name@ && forall|k: int|
                0 <= k < j ==> v@[k]@ != name@,
            None => forall|k: int| 0 <= k < v@.len() ==> v@[k]@ != name@,
        },
{
    let mut j: usize = 0;
    while j < v.len()
        invariant
            j <= v@.len(),
            forall|k: int| 0 <= k < j ==> v@[k]@ != name@,
        decreases v@.len() - j,
    {
        if v[j] == *name {
            return Some(j);
        }
        j = j + 1;
    }
    None
}

/// Copies a list of names.
fn copy_names(v: &Vec<String>) -> (r: Vec<String>)
    ensures
        r@.len() == v@.len(),
        forall|k: int| 0 <= k < v@.len() ==> r@[k]@ == v@[k]@,
{
    let mut r: Vec<String> = Vec::new();
    let mut j: usize = 0;
    while j < v.len()
        invariant
            j <= v@.len(),
            r@.len() == j,
            forall|k: int| 0 <= k < j ==> r@[k]@ == v@[k]@,
        decreases v@.len() - j,
    {
        r.push(v[j].clone());
        j = j + 1;
    }
    r
}

/// Whether the names of `v` are pairwise distinct.
fn all_distinct(v: &Vec<String>) -> (r: bool)
    ensures
        r == distinct(names_view(v@)),
{
    let mut i: usize = 0;
    while i < v.len()
        invariant
            i <= v@.len(),
            forall|a: int, b: int| 0 <= a < i && 0 <= b < v@.len() && a != b ==> v@[a]@ != v@[b]@,
        decreases v@.len() - i,
    {
        let mut j: usize = 0;
        while j < v.len()
            invariant
                i < v@.len(),
                j <= v@.len(),
                forall|a: int, b: int| 0 <= a < i && 0 <= b < v@.len() && a != b ==> v@[a]@ != v@[b]@,
                forall|b: int| 0 <= b < j && b != i ==> v@[i as int]@ != v@[b]@,
            decreases v@.len() - j,
        {
            if j != i && v[i] == v[j] {
                assert(names_view(v@)[i as int] == names_view(v@)[j as int]);
                return false;
            }
            j = j + 1;
        }
        i = i + 1;
    }
    true
}

/// A row of `n` zeros.
fn zero_row(n: usize) -> (r: Vec<u8>)
    ensures
        r@.len() == n,
        forall|k: int| 0 <= k < n ==> r@[k] == 0,
{
    let mut r: Vec<u8> = Vec::new();
    let mut j: usize = 0;
    while j < n
        invariant
            j <= n,
            r@.len() == j,
            forall|k: int| 0 <= k < j ==> r@[k] == 0,
        decreases n - j,
    {
        r.push(0);
        j = j + 1;
    }
    r
}

/// The column that lands at `j` when columns `c1` and `c2` trade places.
pub open spec fn swapped(j: int, c1: int, c2: int) -> int {
    if j == c1 {
        c2
    } else if j == c2 {
        c1
    } else {
        j
    }
}

/// The old index of what stands at `j` once index `gone` is removed.
pub open spec fn skip_index(j: int, gone: int) -> int {
    if j < gone {
        j
    } else {
        j + 1
    }
}

/// A strictly increasing list of indices below `n` has at most `n` entries.
proof fn lemma_increasing_bounded(v: Seq<usize>, n: int)
    requires
        n >= 0,
        forall|k: int, l: int| 0 <= k < l < v.len() ==> v[k] < v[l],
        forall|k: int| 0 <= k < v.len() ==> #[trigger] v[k] < n,
    ensures
        v.len() <= n,
    decreases v.len(),
{
    if v.len() > 0 {
        let w = v.drop_last();
        assert forall|k: int| 0 <= k < w.len() implies #[trigger] w[k] < v[v.len() - 1] by {
            assert(w[k] == v[k]);
        }
        lemma_increasing_bounded(w, v[v.len() - 1] as int);
        assert(v[v.len() - 1] < n);
        assert(w.len() + 1 == v.len());
    }
}

/// Swaps two entries of a row.
fn swap_in_row(row: &mut Vec<u8>, c1: usize, c2: usize)
    requires
        c1 < old(row)@.len(),
        c2 < old(row)@.len(),
    ensures
        final(row)@.len() == old(row)@.len(),
        forall|j: int|
            0 <= j < old(row)@.len() ==> #[trigger] final(row)@[j] == old(row)@[swapped(j, c1 as int, c2 as int)],
{
    let t = row[c1];
    let u = row[c2];
    row.set(c1, u);
    row.set(c2, t);
}

/// `p` is a permutation of `0..n`.
pub open spec fn is_perm(p: Seq<int>, n: int) -> bool {
    &&& p.len() == n
    &&& forall|i: int| 0 <= i < n ==> 0 <= #[trigger] p[i] < n
    &&& forall|i: int, j: int| 0 <= i < n && 0 <= j < n && i != j ==> p[i] != p[j]
}

/// The entries of `v` are pairwise distinct.
pub open spec fn distinct(v: Seq<Seq<char>>) -> bool {
    forall|i: int, j: int| 0 <= i < v.len() && 0 <= j < v.len() && i != j ==> v[i] != v[j]
}

impl Matrix {
    /// Shape invariant: `rows` rows of `cols` entries, one name per column.
    pub closed spec fn wf(&self) -> bool {
        &&& self.data@.len() == self.rows
        &&& self.names@.len() == self.cols
        &&& forall|i: int| 0 <= i < self.rows ==> #[trigger] self.data@[i]@.len() == self.cols
        &&& distinct(names_view(self.names@))
    }

    pub closed spec fn spec_rows(&self) -> nat {
        self.rows as nat
    }

    pub closed spec fn spec_cols(&self) -> nat {
        self.cols as nat
    }

    pub closed spec fn spec_poly(&self) -> u16 {
        self.poly
    }

    /// The value at row `i`, column `j`.
    pub closed spec fn entry(&self, i: int, j: int) -> u8 {
        self.data@[i]@[j]
    }

    /// The name of column `j`.
    pub closed spec fn name(&self, j: int) -> Seq<char> {
        self.names@[j]@
    }

    /// The column names, in column order.
    pub closed spec fn names(&self) -> Seq<Seq<char>> {
        names_view(self.names@)
    }

    /// An all-zero matrix of the default field, with columns named
    /// `X_0`, `X_1`, ...
    pub fn new(rows: usize, cols: usize) -> (r: Matrix)
        ensures
            r.wf(),
            r.spec_rows() == rows,
            r.spec_cols() == cols,
            r.spec_poly() == DEFAULT_POLY,
            forall|i: int, j: int| 0 <= i < rows && 0 <= j < cols ==> r.entry(i, j) == 0,
            forall|j: int| 0 <= j < cols ==> #[trigger] r.name(j) == column_label(j as nat),
    {
        let mut names: Vec<String> = Vec::new();
        let mut j: usize = 0;
        while j < cols
            invariant
                j <= cols,
                names@.len() == j,
                forall|k: int| 0 <= k < j ==> #[trigger] names@[k]@ == column_label(k as nat),
            decreases cols - j,
        {
            names.push(make_column_label(j));
            j = j + 1;
        }
        assert forall|a: int, b: int| 0 <= a < cols && 0 <= b < cols && a != b implies names_view(names@)[a] != names_view(names@)[b] by {
            if column_label(a as nat) == column_label(b as nat) {
                assert(decimal(a as nat) =~= column_label(a as nat).subrange(2, column_label(a as nat).len() as int));
                assert(decimal(b as nat) =~= column_label(b as nat).subrange(2, column_label(b as nat).len() as int));
                lemma_decimal_injective(a as nat, b as nat);
            }
        }
        let mut data: Vec<Vec<u8>> = Vec::new();
        let mut i: usize = 0;
        while i < rows
            invariant
                i <= rows,
                data@.len() == i,
                forall|k: int| 0 <= k < i ==> #[trigger] data@[k]@.len() == cols,
                forall|k: int, l: int| 0 <= k < i && 0 <= l < cols ==> data@[k]@[l] == 0,
            decreases rows - i,
        {
            data.push(zero_row(cols));
            i = i + 1;
        }
        Matrix { names, rows, cols, data, poly: DEFAULT_POLY }
    }

    /// A matrix of the default field holding `data` row by row, with
    /// columns named `X_0`, `X_1`, ...
    pub fn from(data: Vec<Vec<u8>>) -> (m: Matrix)
        requires
            forall|i: int| 0 <= i < data@.len() ==> #[trigger] data@[i]@.len() == data@[0]@.len(),
        ensures
            m.wf(),
            m.spec_rows() == data@.len(),
            m.spec_cols() == (if data@.len() == 0 { 0 } else { data@[0]@.len() }),
            m.spec_poly() == DEFAULT_POLY,
            forall|i: int, j: int|
                0 <= i < m.spec_rows() && 0 <= j < m.spec_cols() ==> m.entry(i, j) == data@[i]@[j],
            forall|j: int| 0 <= j < m.spec_cols() ==> #[trigger] m.name(j) == column_label(j as nat),
    {
        let rows = data.len();
        let cols: usize = if rows == 0 {
            0
        } else {
            data[0].len()
        };
        let mut m = Matrix::new(0, cols);
        let ghost n0 = m.names@;
        assert forall|j: int| 0 <= j < cols implies #[trigger] n0[j]@ == column_label(j as nat) by {
            assert(m.name(j) == column_label(j as nat));
        }
        let mut i: usize = 0;
        while i < rows
            invariant
                m.names@ == n0,
                forall|j: int| 0 <= j < cols ==> #[trigger] n0[j]@ == column_label(j as nat),
                i <= rows,
                rows == data@.len(),
                cols == (if data@.len() == 0 { 0 } else { data@[0]@.len() }),
                forall|k: int| 0 <= k < data@.len() ==> #[trigger] data@[k]@.len() == data@[0]@.len(),
                m.wf(),
                m.rows == i,
                m.cols == cols,
                m.poly == DEFAULT_POLY,
                forall|k: int, l: int| 0 <= k < i && 0 <= l < cols ==> m.data@[k]@[l] == data@[k]@[l],
            decreases rows - i,
        {
            let mut row: Vec<u8> = Vec::new();
            let mut j: usize = 0;
            while j < cols
                invariant
                    j <= cols,
                    i < data@.len(),
                    data@[i as int]@.len() == cols,
                    row@.len() == j,
                    forall|l: int| 0 <= l < j ==> row@[l] == data@[i as int]@[l],
                decreases cols - j,
            {
                row.push(data[i][j]);
                j = j + 1;
            }
            m.data.push(row);
            m.rows = m.rows + 1;
            i = i + 1;
        }
        m
    }

    pub fn get_row_number(&self) -> (r: usize)
        ensures
            r == self.spec_rows(),
    {
        self.rows
    }

    pub fn get_column_number(&self) -> (r: usize)
        ensures
            r == self.spec_cols(),
    {
        self.cols
    }

    /// The entry at row `i`, column `j`.
    pub fn get(&self, i: usize, j: usize) -> (r: Number)
        requires
            self.wf(),
            i < self.spec_rows(),
            j < self.spec_cols(),
        ensures
            r.value == self.entry(i as int, j as int),
            r.poly == self.spec_poly(),
    {
        Number::new(self.data[i][j], self.poly)
    }

    /// Writes the value of `v` at row `i`, column `j`.
    pub fn set(&mut self, i: usize, j: usize, v: Number)
        requires
            old(self).wf(),
            i < old(self).spec_rows(),
            j < old(self).spec_cols(),
        ensures
            final(self).wf(),
            final(self).spec_rows() == old(self).spec_rows(),
            final(self).spec_cols() == old(self).spec_cols(),
            final(self).spec_poly() == old(self).spec_poly(),
            final(self).names() == old(self).names(),
            forall|k: int, l: int|
                0 <= k < final(self).spec_rows() && 0 <= l < final(self).spec_cols() ==> #[trigger] final(self).entry(k, l) == if k == i && l == j {
                    v.value
                } else {
                    old(self).entry(k, l)
                },
    {
        let mut row: Vec<u8> = Vec::new();
        self.data.set_and_swap(i, &mut row);
        row.set(j, v.value);
        self.data.set(i, row);
    }

    /// The entries of row `row`, left to right.
    pub fn get_row(&self, row: usize) -> (r: Vec<Number>)
        requires
            self.wf(),
            row < self.spec_rows(),
        ensures
            r@.len() == self.spec_cols(),
            forall|j: int|
                0 <= j < self.spec_cols() ==> #[trigger] r@[j].value == self.entry(row as int, j)
                    && r@[j].poly == self.spec_poly(),
    {
        let mut r: Vec<Number> = Vec::new();
        let mut j: usize = 0;
        while j < self.cols
            invariant
                self.wf(),
                row < self.rows,
                j <= self.cols,
                r@.len() == j,
                forall|l: int|
                    0 <= l < j ==> #[trigger] r@[l].value == self.data@[row as int]@[l]
                        && r@[l].poly == self.poly,
            decreases self.cols - j,
        {
            r.push(Number::new(self.data[row][j], self.poly));
            j = j + 1;
        }
        r
    }

    /// The entries of column `column`, top to bottom.
    pub fn get_column(&self, column: usize) -> (r: Vec<Number>)
        requires
            self.wf(),
            column < self.spec_cols(),
        ensures
            r@.len() == self.spec_rows(),
            forall|i: int|
                0 <= i < self.spec_rows() ==> #[trigger] r@[i].value == self.entry(
                    i,
                    column as int,
                ) && r@[i].poly == self.spec_poly(),
    {
        let mut r: Vec<Number> = Vec::new();
        let mut i: usize = 0;
        while i < self.rows
            invariant
                self.wf(),
                column < self.cols,
                i <= self.rows,
                r@.len() == i,
                forall|k: int|
                    0 <= k < i ==> #[trigger] r@[k].value == self.data@[k]@[column as int]
                        && r@[k].poly == self.poly,
            decreases self.rows - i,
        {
            r.push(Number::new(self.data[i][column], self.poly));
            i = i + 1;
        }
        r
    }

    /// Swaps two rows.
    fn swap_lines(&mut self, i1: usize, i2: usize)
        requires
            old(self).wf(),
            i1 < old(self).rows,
            i2 < old(self).rows,
        ensures
            final(self).wf(),
            final(self).rows == old(self).rows,
            final(self).cols == old(self).cols,
            final(self).poly == old(self).poly,
            final(self).names == old(self).names,
            forall|i: int| 0 <= i < old(self).rows ==> #[trigger] final(self).data@[i] == old(self).data@[swapped(i, i1 as int, i2 as int)],
            final(self).rows_view() == apply_op(old(self).rows_view(), RowOp::Swap { a: i1, b: i2 }, low_byte(old(self).poly)),
    {
        if i1 == i2 {
            assert(self.rows_view() =~= apply_op(old(self).rows_view(), RowOp::Swap { a: i1, b: i2 }, low_byte(old(self).poly)));
            return;
        }
        let mut a: Vec<u8> = Vec::new();
        self.data.set_and_swap(i1, &mut a);
        self.data.set_and_swap(i2, &mut a);
        self.data.set(i1, a);
        assert(self.rows_view() =~= apply_op(old(self).rows_view(), RowOp::Swap { a: i1, b: i2 }, low_byte(old(self).poly)));
    }

    /// Swaps two columns together with their names.
    pub fn swap_columns(&mut self, col1: usize, col2: usize) -> (r: Result<(), MatrixError>)
        requires
            old(self).wf(),
        ensures
            final(self).wf(),
            final(self).spec_rows() == old(self).spec_rows(),
            final(self).spec_cols() == old(self).spec_cols(),
            final(self).spec_poly() == old(self).spec_poly(),
            r is Err <==> (col1 >= old(self).spec_cols() || col2 >= old(self).spec_cols()),
            r is Err ==> r == Err::<(), MatrixError>(MatrixError::IndexOutOfBounds) && *final(self) == *old(self),
            r is Ok ==> forall|j: int| 0 <= j < old(self).spec_cols() ==> #[trigger] final(self).name(j) == old(self).name(swapped(j, col1 as int, col2 as int)),
            r is Ok ==> forall|i: int, j: int|
                0 <= i < old(self).spec_rows() && 0 <= j < old(self).spec_cols() ==> #[trigger] final(self).entry(i, j) == old(self).entry(i, swapped(j, col1 as int, col2 as int)),
    {
        if col1 >= self.cols || col2 >= self.cols {
            return Err(MatrixError::IndexOutOfBounds);
        }
        if col1 == col2 {
            return Ok(());
        }
        let ghost d0 = self.data@;
        let mut i: usize = 0;
        while i < self.rows
            invariant
                self.wf(),
                self.rows == old(self).rows,
                self.cols == old(self).cols,
                self.poly == old(self).poly,
                self.names == old(self).names,
                col1 < self.cols,
                col2 < self.cols,
                d0 == old(self).data@,
                i <= self.rows,
                forall|k: int, j: int|
                    0 <= k < i && 0 <= j < self.cols ==> #[trigger] self.data@[k]@[j] == d0[k]@[swapped(j, col1 as int, col2 as int)],
                forall|k: int| i <= k < self.rows ==> #[trigger] self.data@[k] == d0[k],
            decreases self.rows - i,
        {
            let mut row: Vec<u8> = Vec::new();
            self.data.set_and_swap(i, &mut row);
            swap_in_row(&mut row, col1, col2);
            self.data.set(i, row);
            i = i + 1;
        }
        let mut a: String = String::new();
        self.names.set_and_swap(col1, &mut a);
        self.names.set_and_swap(col2, &mut a);
        self.names.set(col1, a);
        assert forall|x: int, y: int| 0 <= x < self.cols && 0 <= y < self.cols && x != y implies names_view(self.names@)[x] != names_view(self.names@)[y] by {
            assert(self.names@[x] == old(self).names@[swapped(x, col1 as int, col2 as int)]);
            assert(self.names@[y] == old(self).names@[swapped(y, col1 as int, col2 as int)]);
            assert(names_view(old(self).names@)[swapped(x, col1 as int, col2 as int)] != names_view(old(self).names@)[swapped(y, col1 as int, col2 as int)]);
        }
        Ok(())
    }

    /// Removes row `row`; the rows below move up by one.
    pub fn delete_row(&mut self, row: usize) -> (r: Result<(), MatrixError>)
        requires
            old(self).wf(),
        ensures
            final(self).wf(),
            final(self).spec_cols() == old(self).spec_cols(),
            final(self).spec_poly() == old(self).spec_poly(),
            final(self).names() == old(self).names(),
            r is Err <==> row >= old(self).spec_rows(),
            r is Err ==> r == Err::<(), MatrixError>(MatrixError::IndexOutOfBounds) && *final(self) == *old(self),
            r is Ok ==> final(self).spec_rows() == old(self).spec_rows() - 1,
            r is Ok ==> forall|i: int, j: int|
                0 <= i < final(self).spec_rows() && 0 <= j < old(self).spec_cols() ==> #[trigger] final(self).entry(i, j) == old(self).entry(skip_index(i, row as int), j),
    {
        if row >= self.rows {
            return Err(MatrixError::IndexOutOfBounds);
        }
        self.data.remove(row);
        self.rows = self.rows - 1;
        Ok(())
    }

    /// Removes column `column` and its name; the columns to its right move
    /// left by one.
    pub fn delete_column(&mut self, column: usize) -> (r: Result<(), MatrixError>)
        requires
            old(self).wf(),
        ensures
            final(self).wf(),
            final(self).spec_rows() == old(self).spec_rows(),
            final(self).spec_poly() == old(self).spec_poly(),
            r is Err <==> column >= old(self).spec_cols(),
            r is Err ==> r == Err::<(), MatrixError>(MatrixError::IndexOutOfBounds) && *final(self) == *old(self),
            r is Ok ==> final(self).spec_cols() == old(self).spec_cols() - 1,
            r is Ok ==> final(self).names() == old(self).names().remove(column as int),
            r is Ok ==> forall|i: int, j: int|
                0 <= i < old(self).spec_rows() && 0 <= j < final(self).spec_cols() ==> #[trigger] final(self).entry(i, j) == old(self).entry(i, skip_index(j, column as int)),
    {
        if column >= self.cols {
            return Err(MatrixError::IndexOutOfBounds);
        }
        let ghost d0 = self.data@;
        let mut i: usize = 0;
        while i < self.rows
            invariant
                self.data@.len() == self.rows,
                self.rows == old(self).rows,
                self.cols == old(self).cols,
                self.poly == old(self).poly,
                self.names == old(self).names,
                column < self.cols,
                d0 == old(self).data@,
                old(self).wf(),
                i <= self.rows,
                forall|k: int| 0 <= k < i ==> #[trigger] self.data@[k]@.len() == self.cols - 1,
                forall|k: int, j: int|
                    0 <= k < i && 0 <= j < self.cols - 1 ==> #[trigger] self.data@[k]@[j] == d0[k]@[skip_index(j, column as int)],
                forall|k: int| i <= k < self.rows ==> #[trigger] self.data@[k] == d0[k],
            decreases self.rows - i,
        {
            let mut row: Vec<u8> = Vec::new();
            self.data.set_and_swap(i, &mut row);
            assert(row@.len() == self.cols);
            row.remove(column);
            self.data.set(i, row);
            i = i + 1;
        }
        self.names.remove(column);
        self.cols = self.cols - 1;
        assert(names_view(self.names@) =~= names_view(old(self).names@).remove(column as int));
        assert forall|x: int, y: int| 0 <= x < self.cols && 0 <= y < self.cols && x != y implies names_view(self.names@)[x] != names_view(self.names@)[y] by {
            assert(names_view(self.names@)[x] == names_view(old(self).names@)[skip_index(x, column as int)]);
            assert(names_view(self.names@)[y] == names_view(old(self).names@)[skip_index(y, column as int)]);
        }
        Ok(())
    }

    /// Names the columns: `names[j]` becomes the name of column `j`.
    pub fn set_vars_map(&mut self, names: Vec<String>) -> (r: Result<(), MatrixError>)
        requires
            old(self).wf(),
        ensures
            final(self).wf(),
            r is Err <==> (names@.len() != old(self).spec_cols() || !distinct(names_view(names@))),
            r is Err ==> r == Err::<(), MatrixError>(MatrixError::ShapeMismatch) && *final(self) == *old(self),
            r is Ok ==> final(self).names() == names_view(names@),
            final(self).spec_rows() == old(self).spec_rows(),
            final(self).spec_cols() == old(self).spec_cols(),
            final(self).spec_poly() == old(self).spec_poly(),
            forall|i: int, j: int| #[trigger] final(self).entry(i, j) == old(self).entry(i, j),
    {
        if names.len() != self.cols || !all_distinct(&names) {
            return Err(MatrixError::ShapeMismatch);
        }
        self.names = names;
        Ok(())
    }

    /// The variable names, in column order.
    pub fn get_all_variables(&self) -> (r: Vec<String>)
        requires
            self.wf(),
        ensures
            names_view(r@) == self.names(),
            distinct(self.names()),
    {
        let r = copy_names(&self.names);
        assert(names_view(r@) =~= names_view(self.names@));
        r
    }

    /// The first column named `name`, if any.
    pub fn column_of(&self, name: &String) -> (r: Option<usize>)
        requires
            self.wf(),
        ensures
            match r {
                Some(j) => j < self.spec_cols() && self.name(j as int) == name@ && forall|k: int|
                    0 <= k < j ==> self.name(k) != name@,
                None => forall|k: int| 0 <= k < self.spec_cols() ==> self.name(k) != name@,
            },
    {
        position_of(&self.names, name)
    }

    /// `new` is `old` with its columns, names included, reordered by `p`:
    /// column `j` of `new` is column `p[j]` of `old`.
    pub open spec fn permuted_by(old: &Matrix, new: &Matrix, p: Seq<int>) -> bool {
        &&& is_perm(p, old.spec_cols() as int)
        &&& forall|j: int| 0 <= j < old.spec_cols() ==> #[trigger] new.name(j) == old.name(p[j])
        &&& forall|i: int, j: int|
            0 <= i < old.spec_rows() && 0 <= j < old.spec_cols() ==> #[trigger] new.entry(i, j)
                == old.entry(i, p[j])
    }

    /// `new` holds the columns of `old`, with their names, in some order.
    pub open spec fn columns_permuted(old: &Matrix, new: &Matrix) -> bool {
        &&& new.spec_rows() == old.spec_rows()
        &&& new.spec_cols() == old.spec_cols()
        &&& new.spec_poly() == old.spec_poly()
        &&& exists|p: Seq<int>| Matrix::permuted_by(old, new, p)
    }

    proof fn lemma_permuted_swap(m0: &Matrix, m1: &Matrix, m2: &Matrix, p: Seq<int>, c1: int, c2: int)
        requires
            Matrix::permuted_by(m0, m1, p),
            m1.spec_rows() == m0.spec_rows(),
            m1.spec_cols() == m0.spec_cols(),
            0 <= c1 < m0.spec_cols(),
            0 <= c2 < m0.spec_cols(),
            forall|j: int| 0 <= j < m1.spec_cols() ==> #[trigger] m2.name(j) == m1.name(swapped(j, c1, c2)),
            forall|i: int, j: int|
                0 <= i < m1.spec_rows() && 0 <= j < m1.spec_cols() ==> #[trigger] m2.entry(i, j) == m1.entry(i, swapped(j, c1, c2)),
        ensures
            Matrix::permuted_by(m0, m2, Seq::new(p.len(), |j: int| p[swapped(j, c1, c2)])),
    {
        let q = Seq::new(p.len(), |j: int| p[swapped(j, c1, c2)]);
        let n = m0.spec_cols() as int;
        assert forall|i: int, j: int| 0 <= i < n && 0 <= j < n && i != j implies q[i] != q[j] by {
            assert(swapped(i, c1, c2) != swapped(j, c1, c2));
        }
        assert forall|j: int| 0 <= j < n implies 0 <= #[trigger] q[j] < n by {
            assert(0 <= swapped(j, c1, c2) < n);
        }
        assert forall|i: int, j: int| 0 <= i < m0.spec_rows() && 0 <= j < n implies #[trigger] m2.entry(i, j) == m0.entry(i, q[j]) by {
            assert(m1.entry(i, swapped(j, c1, c2)) == m0.entry(i, p[swapped(j, c1, c2)]));
        }
        assert forall|j: int| 0 <= j < n implies #[trigger] m2.name(j) == m0.name(q[j]) by {
            assert(m1.name(swapped(j, c1, c2)) == m0.name(p[swapped(j, c1, c2)]));
        }
    }

    /// Moves the named columns to the front: `vars[k]` becomes column `k`.
    /// The other columns keep their relative order.
    pub fn sort_left(&mut self, vars: Vec<String>)
        requires
            old(self).wf(),
            vars@.len() <= old(self).spec_cols(),
            distinct(names_view(vars@)),
            forall|k: int| 0 <= k < vars@.len() ==> old(self).names().contains(#[trigger] vars@[k]@),
        ensures
            final(self).wf(),
            Matrix::columns_permuted(old(self), final(self)),
            forall|k: int| 0 <= k < vars@.len() ==> #[trigger] final(self).name(k) == vars@[k]@,
            exists|p: Seq<int>| #[trigger] Matrix::permuted_by(old(self), final(self), p) && forall|j1: int, j2: int|
                vars@.len() <= j1 < j2 < old(self).spec_cols() ==> p[j1] < p[j2],
    {
        let ghost p = Seq::new(self.cols as nat, |j: int| j);
        let mut k: usize = 0;
        while k < vars.len()
            invariant
                self.wf(),
                self.rows == old(self).rows,
                self.cols == old(self).cols,
                self.poly == old(self).poly,
                vars@.len() <= self.cols,
                k <= vars@.len(),
                distinct(names_view(vars@)),
                forall|t: int| 0 <= t < vars@.len() ==> self.names().contains(#[trigger] vars@[t]@),
                Matrix::permuted_by(old(self), self, p),
                forall|t: int| 0 <= t < k ==> #[trigger] self.name(t) == vars@[t]@,
                forall|j1: int, j2: int| k <= j1 < j2 < self.cols ==> p[j1] < p[j2],
            decreases vars@.len() - k,
        {
            assert(names_view(vars@)[k as int] == vars@[k as int]@);
            let found = self.column_of(&vars[k]);
            proof {
                if found is None {
                    let w = choose|w: int| 0 <= w < self.names().len() && self.names()[w] == vars@[k as int]@;
                    assert(self.name(w) == self.names()[w]);
                }
            }
            let mut j: usize = found.unwrap();
            proof {
                if j < k {
                    assert(names_view(vars@)[j as int] == vars@[j as int]@);
                    assert(self.name(j as int) == vars@[j as int]@);
                }
            }
            while j > k
                invariant
                    self.wf(),
                    self.rows == old(self).rows,
                    self.cols == old(self).cols,
                    self.poly == old(self).poly,
                    k < vars@.len(),
                    vars@.len() <= self.cols,
                    k <= j < self.cols,
                    self.name(j as int) == vars@[k as int]@,
                    Matrix::permuted_by(old(self), self, p),
                    forall|t: int| 0 <= t < k ==> #[trigger] self.name(t) == vars@[t]@,
                    forall|j1: int, j2: int| k <= j1 < j2 < self.cols && j1 != j && j2 != j ==> p[j1] < p[j2],
                    forall|t: int| 0 <= t < vars@.len() ==> self.names().contains(#[trigger] vars@[t]@),
                decreases j,
            {
                let ghost before = *self;
                let _ = self.swap_columns(j - 1, j);
                proof {
                    Matrix::lemma_permuted_swap(old(self), &before, self, p, (j - 1) as int, j as int);
                    let p0 = p;
                    p = Seq::new(p.len(), |x: int| p[swapped(x, (j - 1) as int, j as int)]);
                    assert forall|j1: int, j2: int| k <= j1 < j2 < self.cols && j1 != j - 1 && j2 != j - 1 implies p[j1] < p[j2] by {
                        assert(p[j1] == p0[swapped(j1, (j - 1) as int, j as int)]);
                        assert(p[j2] == p0[swapped(j2, (j - 1) as int, j as int)]);
                    }
                    assert forall|t: int| 0 <= t < vars@.len() implies self.names().contains(#[trigger] vars@[t]@) by {
                        let w = choose|w: int| 0 <= w < before.names().len() && before.names()[w] == vars@[t]@;
                        assert(before.name(w) == before.names()[w]);
                        let w2 = swapped(w, (j - 1) as int, j as int);
                        assert(self.name(w2) == before.name(w));
                        assert(self.names()[w2] == self.name(w2));
                    }
                }
                j = j - 1;
            }
            k = k + 1;
        }
    }

    /// Moves the named columns to the back: `vars[k]` becomes column
    /// `cols - 1 - k`. The other columns keep their relative order.
    pub fn sort_right(&mut self, vars: Vec<String>)
        requires
            old(self).wf(),
            vars@.len() <= old(self).spec_cols(),
            distinct(names_view(vars@)),
            forall|k: int| 0 <= k < vars@.len() ==> old(self).names().contains(#[trigger] vars@[k]@),
        ensures
            final(self).wf(),
            Matrix::columns_permuted(old(self), final(self)),
            forall|k: int|
                0 <= k < vars@.len() ==> #[trigger] final(self).name(final(self).spec_cols() - 1 - k)
                    == vars@[k]@,
            exists|p: Seq<int>| #[trigger] Matrix::permuted_by(old(self), final(self), p) && forall|j1: int, j2: int|
                0 <= j1 < j2 < old(self).spec_cols() - vars@.len() ==> p[j1] < p[j2],
    {
        let ghost p = Seq::new(self.cols as nat, |j: int| j);
        let mut k: usize = 0;
        while k < vars.len()
            invariant
                self.wf(),
                self.rows == old(self).rows,
                self.cols == old(self).cols,
                self.poly == old(self).poly,
                vars@.len() <= self.cols,
                k <= vars@.len(),
                distinct(names_view(vars@)),
                forall|t: int| 0 <= t < vars@.len() ==> self.names().contains(#[trigger] vars@[t]@),
                Matrix::permuted_by(old(self), self, p),
                forall|t: int| 0 <= t < k ==> #[trigger] self.name(self.cols - 1 - t) == vars@[t]@,
                forall|j1: int, j2: int| 0 <= j1 < j2 < self.cols - k ==> p[j1] < p[j2],
            decreases vars@.len() - k,
        {
            assert(names_view(vars@)[k as int] == vars@[k as int]@);
            let found = self.column_of(&vars[k]);
            proof {
                if found is None {
                    let w = choose|w: int| 0 <= w < self.names().len() && self.names()[w] == vars@[k as int]@;
                    assert(self.name(w) == self.names()[w]);
                }
            }
            let mut j: usize = found.unwrap();
            let target: usize = self.cols - 1 - k;
            proof {
                if j > target {
                    let t = self.cols - 1 - j;
                    assert(self.name(self.cols - 1 - t) == vars@[t]@);
                    assert(names_view(vars@)[t] == vars@[t]@);
                }
            }
            while j < target
                invariant
                    self.wf(),
                    self.rows == old(self).rows,
                    self.cols == old(self).cols,
                    self.poly == old(self).poly,
                    k < vars@.len(),
                    vars@.len() <= self.cols,
                    target == self.cols - 1 - k,
                    j <= target,
                    self.name(j as int) == vars@[k as int]@,
                    Matrix::permuted_by(old(self), self, p),
                    forall|t: int| 0 <= t < k ==> #[trigger] self.name(self.cols - 1 - t) == vars@[t]@,
                    forall|t: int| 0 <= t < vars@.len() ==> self.names().contains(#[trigger] vars@[t]@),
                    forall|j1: int, j2: int| 0 <= j1 < j2 < self.cols - k && j1 != j && j2 != j ==> p[j1] < p[j2],
                decreases target - j,
            {
                let ghost before = *self;
                let _ = self.swap_columns(j, j + 1);
                proof {
                    Matrix::lemma_permuted_swap(old(self), &before, self, p, j as int, (j + 1) as int);
                    let p0 = p;
                    p = Seq::new(p.len(), |x: int| p[swapped(x, j as int, (j + 1) as int)]);
                    assert forall|j1: int, j2: int| 0 <= j1 < j2 < self.cols - k && j1 != j + 1 && j2 != j + 1 implies p[j1] < p[j2] by {
                        assert(p[j1] == p0[swapped(j1, j as int, (j + 1) as int)]);
                        assert(p[j2] == p0[swapped(j2, j as int, (j + 1) as int)]);
                    }
                    assert forall|t: int| 0 <= t < vars@.len() implies self.names().contains(#[trigger] vars@[t]@) by {
                        let w = choose|w: int| 0 <= w < before.names().len() && before.names()[w] == vars@[t]@;
                        assert(before.name(w) == before.names()[w]);
                        let w2 = swapped(w, j as int, (j + 1) as int);
                        assert(self.name(w2) == before.name(w));
                        assert(self.names()[w2] == self.name(w2));
                    }
                    assert forall|t: int| 0 <= t < k implies #[trigger] self.name(self.cols - 1 - t) == vars@[t]@ by {
                        assert(before.name(before.cols - 1 - t) == vars@[t]@);
                    }
                }
                j = j + 1;
            }
            k = k + 1;
        }
    }

    /// Multiplies row `r` by `f`.
    fn scale_row(&mut self, r: usize, f: u8)
        requires
            old(self).wf(),
            r < old(self).rows,
        ensures
            final(self).wf(),
            final(self).rows == old(self).rows,
            final(self).cols == old(self).cols,
            final(self).poly == old(self).poly,
            final(self).names == old(self).names,
            forall|i: int| 0 <= i < old(self).rows && i != r ==> #[trigger] final(self).data@[i] == old(self).data@[i],
            forall|l: int| 0 <= l < old(self).cols ==> #[trigger] final(self).data@[r as int]@[l] == gf_mul(old(self).data@[r as int]@[l], f, low_byte(old(self).poly)),
            final(self).rows_view() == apply_op(old(self).rows_view(), RowOp::Scale { row: r, factor: f }, low_byte(old(self).poly)),
    {
        let mut row: Vec<u8> = Vec::new();
        self.data.set_and_swap(r, &mut row);
        let ghost row0 = row@;
        let mut l: usize = 0;
        while l < row.len()
            invariant
                row@.len() == row0.len(),
                l <= row@.len(),
                forall|k: int| 0 <= k < l ==> #[trigger] row@[k] == gf_mul(row0[k], f, low_byte(self.poly)),
                forall|k: int| l <= k < row@.len() ==> #[trigger] row@[k] == row0[k],
            decreases row@.len() - l,
        {
            let v = Number::new(row[l], self.poly).multiply(Number::new(f, self.poly));
            row.set(l, v.value);
            l = l + 1;
        }
        self.data.set(r, row);
        proof {
            let ov = old(self).rows_view();
            assert(ov[r as int] == row0);
            assert(self.rows_view()[r as int] =~= ov[r as int].map_values(|x: u8| gf_mul(x, f, low_byte(old(self).poly))));
            assert(self.rows_view() =~= apply_op(ov, RowOp::Scale { row: r, factor: f }, low_byte(old(self).poly)));
        }
    }

    /// Adds `f` times row `src` to row `dst`.
    fn add_scaled_row(&mut self, dst: usize, f: u8, src: usize)
        requires
            old(self).wf(),
            dst < old(self).rows,
            src < old(self).rows,
            dst != src,
        ensures
            final(self).wf(),
            final(self).rows == old(self).rows,
            final(self).cols == old(self).cols,
            final(self).poly == old(self).poly,
            final(self).names == old(self).names,
            forall|i: int| 0 <= i < old(self).rows && i != dst ==> #[trigger] final(self).data@[i] == old(self).data@[i],
            forall|l: int| 0 <= l < old(self).cols ==> #[trigger] final(self).data@[dst as int]@[l] == old(self).data@[dst as int]@[l] ^ gf_mul(f, old(self).data@[src as int]@[l], low_byte(old(self).poly)),
            final(self).rows_view() == apply_op(old(self).rows_view(), RowOp::AddScaled { dst, factor: f, src }, low_byte(old(self).poly)),
    {
        let mut row: Vec<u8> = Vec::new();
        self.data.set_and_swap(dst, &mut row);
        let ghost row0 = row@;
        let mut l: usize = 0;
        while l < row.len()
            invariant
                self.data@.len() == old(self).rows,
                self.poly == old(self).poly,
                src < self.data@.len(),
                src != dst,
                self.data@[src as int] == old(self).data@[src as int],
                old(self).wf(),
                row0 == old(self).data@[dst as int]@,
                row0.len() == old(self).cols,
                self.data@[src as int]@.len() == old(self).cols,
                row@.len() == row0.len(),
                l <= row@.len(),
                forall|k: int| 0 <= k < l ==> #[trigger] row@[k] == row0[k] ^ gf_mul(f, old(self).data@[src as int]@[k], low_byte(self.poly)),
                forall|k: int| l <= k < row@.len() ==> #[trigger] row@[k] == row0[k],
            decreases row@.len() - l,
        {
            let v = Number::new(f, self.poly).multiply(Number::new(self.data[src][l], self.poly));
            let x = row[l] ^ v.value;
            row.set(l, x);
            l = l + 1;
        }
        self.data.set(dst, row);
        proof {
            let ov = old(self).rows_view();
            assert(ov[dst as int] == row0);
            assert(ov[src as int] == old(self).data@[src as int]@);
            assert(self.rows_view()[dst as int] =~= Seq::new(ov[dst as int].len(), |k: int| ov[dst as int][k] ^ gf_mul(f, ov[src as int][k], low_byte(old(self).poly))));
            assert(self.rows_view() =~= apply_op(ov, RowOp::AddScaled { dst, factor: f, src }, low_byte(old(self).poly)));
        }
    }

    /// Rows `from..rows` are zero in every column before `upto`.
    pub open spec fn zero_below(&self, from: int, upto: int) -> bool {
        forall|i: int, c: int| from <= i < self.spec_rows() && 0 <= c < upto ==> #[trigger] self.entry(i, c) == 0
    }

    /// Row echelon form on the pivot columns `pc`: row `t` has a one in
    /// column `pc[t]` and every row below it has a zero there.
    pub open spec fn echelon(&self, pc: Seq<int>) -> bool {
        &&& pc.len() <= self.spec_rows()
        &&& forall|t: int, u: int| 0 <= t < u < pc.len() ==> pc[t] < pc[u]
        &&& forall|t: int| 0 <= t < pc.len() ==> 0 <= #[trigger] pc[t] < self.spec_cols()
        &&& forall|t: int| 0 <= t < pc.len() ==> #[trigger] self.entry(t, pc[t]) == 1
        &&& forall|t: int, i: int| 0 <= t < pc.len() && t < i < self.spec_rows() ==> #[trigger] self.entry(i, pc[t]) == 0
        &&& forall|t: int, c: int| 0 <= t < pc.len() && 0 <= c < pc[t] ==> #[trigger] self.entry(t, c) == 0
    }

    /// Forward elimination on the leading `lead` columns. With `strict`, it
    /// stops with `Singular` at the first leading column that has no
    /// nonzero entry among the rows not yet used as pivots; otherwise such a
    /// column is skipped. Returns the number of pivot rows.
    #[verifier::spinoff_prover]
    #[verifier::rlimit(60)]
    fn forward(&mut self, lead: usize, strict: bool) -> (r: Result<usize, MatrixError>)
        requires
            old(self).wf(),
            lead <= old(self).cols,
        ensures
            final(self).wf(),
            final(self).rows == old(self).rows,
            final(self).cols == old(self).cols,
            final(self).poly == old(self).poly,
            final(self).names == old(self).names,
            Matrix::row_equivalent(old(self), final(self)),
            match r {
                Ok(n) => {
                    &&& n <= final(self).rows
                    &&& exists|pc: Seq<int>| #[trigger] final(self).echelon(pc) && pc.len() == n
                        && forall|t: int| 0 <= t < n ==> #[trigger] pc[t] < lead
                    &&& (n == final(self).rows || final(self).zero_below(n as int, lead as int))
                    &&& (n == 0 ==> *final(self) == *old(self))
                    &&& (old(self).zero_below(0, lead as int) ==> n == 0)
                    &&& strict ==> n == (if lead < final(self).rows { lead } else { final(self).rows })
                    &&& strict ==> final(self).echelon(Seq::new(n as nat, |t: int| t))
                },
                Err(MatrixError::Singular { column }) => {
                    &&& strict
                    &&& column < lead
                    &&& column < final(self).rows
                    &&& (column == 0 ==> *final(self) == *old(self))
                    &&& final(self).echelon(Seq::new(column as nat, |t: int| t))
                    &&& forall|i: int| column <= i < final(self).rows ==> #[trigger] final(self).entry(i, column as int) == 0
                },
                Err(MatrixError::NotInvertible { column }) => {
                    &&& column < lead
                    &&& final(self).poly != DEFAULT_POLY
                    &&& exists|i: int| 0 <= i < final(self).rows && final(self).entry(i, column as int) != 0
                        && forall|y: u8| gf_mul(#[trigger] final(self).entry(i, column as int), y, low_byte(final(self).poly)) != 1
                },
                Err(_) => false,
            },
    {
        let low: u8 = (self.poly % 256) as u8;
        let ghost ops: Seq<RowOp> = Seq::empty();
        proof {
            assert(apply_ops(old(self).rows_view(), ops, low) == self.rows_view());
        }
        let mut pl: usize = 0;
        let ghost pc: Seq<int> = Seq::empty();
        let mut j: usize = 0;
        while j < lead && pl < self.rows
            invariant
                ops_valid(old(self).rows as nat, ops, low_byte(old(self).poly)),
                apply_ops(old(self).rows_view(), ops, low_byte(old(self).poly)) == self.rows_view(),
                self.wf(),
                self.rows == old(self).rows,
                self.cols == old(self).cols,
                self.poly == old(self).poly,
                self.names == old(self).names,
                low == low_byte(self.poly),
                lead <= self.cols,
                j <= lead,
                pl <= j,
                pl <= self.rows,
                pc.len() == pl,
                self.echelon(pc),
                forall|t: int| 0 <= t < pl ==> #[trigger] pc[t] < j,
                strict ==> pc == Seq::new(pl as nat, |t: int| t),
                strict ==> pl == j,
                pl == 0 ==> *self == *old(self),
                old(self).zero_below(0, lead as int) ==> pl == 0,
                self.zero_below(pl as int, j as int),
            decreases lead - j,
        {
            let mut max: u8 = 0;
            let mut max_row: usize = pl;
            let mut i: usize = pl;
            while i < self.rows
                invariant
                    self.wf(),
                    pl <= max_row < self.rows,
                    pl <= i <= self.rows,
                    j < self.cols,
                    max == self.entry(max_row as int, j as int) || max == 0,
                    forall|k: int| pl <= k < i ==> #[trigger] self.entry(k, j as int) <= max,
                decreases self.rows - i,
            {
                if self.data[i][j] > max {
                    max = self.data[i][j];
                    max_row = i;
                }
                i = i + 1;
            }
            if max == 0 {
                if strict {
                    return Err(MatrixError::Singular { column: j });
                }
                assert(self.zero_below(pl as int, (j + 1) as int));
            } else {
                proof {
                    if old(self).zero_below(0, lead as int) {
                        assert(self.entry(max_row as int, j as int) != 0);
                        assert(old(self).entry(max_row as int, j as int) == 0);
                    }
                }
                let ghost m0 = *self;
                self.swap_lines(max_row, pl);
                proof {
                    Matrix::lemma_row_equivalent_step(old(self), self, ops, RowOp::Swap { a: max_row, b: pl });
                    ops = ops.push(RowOp::Swap { a: max_row, b: pl });
                }
                let ghost m1 = *self;
                assert(self.zero_below(pl as int, j as int)) by {
                    assert forall|i: int, c: int| pl <= i < self.rows && 0 <= c < j implies #[trigger] self.entry(i, c) == 0 by {
                        assert(self.entry(i, c) == m0.entry(swapped(i, max_row as int, pl as int), c));
                    }
                }
                assert(self.echelon(pc)) by {
                    assert forall|t: int, i: int| 0 <= t < pc.len() && t < i < self.rows implies #[trigger] self.entry(i, pc[t]) == 0 by {
                        assert(self.entry(i, pc[t]) == m0.entry(swapped(i, max_row as int, pl as int), pc[t]));
                    }
                    assert forall|t: int| 0 <= t < pc.len() implies #[trigger] self.entry(t, pc[t]) == 1 by {
                        assert(self.entry(t, pc[t]) == m0.entry(t, pc[t]));
                    }
                    assert forall|t: int, c: int| 0 <= t < pc.len() && 0 <= c < pc[t] implies #[trigger] self.entry(t, c) == 0 by {
                        assert(self.entry(t, c) == m0.entry(t, c));
                    }
                }
                let piv = Number::new(self.data[pl][j], self.poly);
                let inv = match piv.invert() {
                    Ok(v) => v,
                    Err(_) => {
                        assert(self.entry(pl as int, j as int) == piv.value);
                        assert(piv.value != 0);
                        assert(forall|y: u8| gf_mul(piv.value, y, low_byte(self.poly)) != 1);
                        assert(self.poly != DEFAULT_POLY);
                        assert(ops_valid(old(self).rows as nat, ops, low_byte(old(self).poly))
                            && apply_ops(old(self).rows_view(), ops, low_byte(old(self).poly)) == self.rows_view());
                        assert(Matrix::row_equivalent(old(self), self));
                        return Err(MatrixError::NotInvertible { column: j });
                    },
                };
                self.scale_row(pl, inv.value);
                proof {
                    assert(gf_mul(piv.value, inv.value, low) == 1);
                    assert(op_valid(old(self).rows as nat, RowOp::Scale { row: pl, factor: inv.value }, low));
                    Matrix::lemma_row_equivalent_step(old(self), self, ops, RowOp::Scale { row: pl, factor: inv.value });
                    ops = ops.push(RowOp::Scale { row: pl, factor: inv.value });
                }
                let ghost m2 = *self;
                proof {
                    lemma_mul_zero_left(inv.value, low, 8);
                    assert(m2.entry(pl as int, j as int) == 1);
                    assert forall|i: int, c: int| pl <= i < self.rows && 0 <= c < j implies #[trigger] m2.entry(i, c) == 0 by {
                        assert(m1.entry(i, c) == 0);
                        if i != pl {
                            assert(m2.data@[i] == m1.data@[i]);
                        }
                    }
                }
                let mut k: usize = pl + 1;
                while k < self.rows
                    invariant
                        ops_valid(old(self).rows as nat, ops, low_byte(old(self).poly)),
                        apply_ops(old(self).rows_view(), ops, low_byte(old(self).poly)) == self.rows_view(),
                        self.wf(),
                        m1.wf(),
                        m2.wf(),
                        m1.rows == self.rows,
                        m2.rows == self.rows,
                        m1.cols == self.cols,
                        self.rows == old(self).rows,
                        self.cols == old(self).cols,
                        self.poly == old(self).poly,
                        self.names == old(self).names,
                        low == low_byte(self.poly),
                        pl < self.rows,
                        j < self.cols,
                        pl + 1 <= k <= self.rows,
                        m2.entry(pl as int, j as int) == 1,
                        self.data@[pl as int] == m2.data@[pl as int],
                        forall|i: int| 0 <= i < pl ==> #[trigger] self.data@[i] == m1.data@[i],
                        forall|i: int| k <= i < self.rows ==> #[trigger] self.data@[i] == m2.data@[i],
                        forall|i: int| pl < i < k ==> #[trigger] self.entry(i, j as int) == 0,
                        forall|i: int, c: int| pl <= i < self.rows && 0 <= c < j ==> #[trigger] m2.entry(i, c) == 0,
                        forall|i: int, c: int| pl <= i < self.rows && 0 <= c < j ==> #[trigger] self.entry(i, c) == 0,
                    decreases self.rows - k,
                {
                    let f = self.data[k][j];
                    let ghost before = *self;
                    self.add_scaled_row(k, f, pl);
                    proof {
                        Matrix::lemma_row_equivalent_step(old(self), self, ops, RowOp::AddScaled { dst: k, factor: f, src: pl });
                        ops = ops.push(RowOp::AddScaled { dst: k, factor: f, src: pl });
                    }
                    proof {
                        lemma_mul_one(f, low);
                        lemma_mul_zero_right(f, low, 8);
                        assert(f ^ f == 0u8) by (bit_vector);
                        assert(0u8 ^ 0u8 == 0u8) by (bit_vector);
                        assert(before.entry(pl as int, j as int) == 1);
                        assert(self.entry(k as int, j as int) == f ^ gf_mul(f, 1, low));
                        assert forall|i: int| pl < i < k + 1 implies #[trigger] self.entry(i, j as int) == 0 by {
                            if i < k {
                                assert(self.data@[i] == before.data@[i]);
                                assert(before.entry(i, j as int) == 0);
                            } else {
                                assert(self.entry(k as int, j as int) == 0u8);
                            }
                        }
                        assert forall|i: int, c: int| pl <= i < self.rows && 0 <= c < j implies #[trigger] self.entry(i, c) == 0 by {
                            assert(before.entry(i, c) == 0);
                            if i == k {
                                assert(before.entry(pl as int, c) == 0);
                                assert(self.entry(k as int, c) == before.entry(k as int, c) ^ gf_mul(f, before.entry(pl as int, c), low));
                            } else {
                                assert(self.data@[i] == before.data@[i]);
                            }
                        }
                    }
                    k = k + 1;
                }
                proof {
                    let pc2 = pc.push(j as int);
                    assert forall|t: int, i: int| 0 <= t < pc2.len() && t < i < self.rows implies #[trigger] self.entry(i, pc2[t]) == 0 by {
                        if t < pc.len() {
                            assert(pc[t] < j);
                            assert(pc2[t] == pc[t]);
                            if i < pl {
                                assert(self.data@[i] == m1.data@[i]);
                                assert(m1.entry(i, pc[t]) == 0);
                            } else if i == pl {
                                assert(m1.entry(i, pc[t]) == 0);
                            }
                        }
                    }
                    assert forall|t: int| 0 <= t < pc2.len() implies #[trigger] self.entry(t, pc2[t]) == 1 by {
                        if t < pc.len() {
                            assert(pc2[t] == pc[t]);
                            assert(self.data@[t] == m1.data@[t]);
                            assert(m1.entry(t, pc[t]) == 1);
                        }
                    }
                    assert forall|t: int, c: int| 0 <= t < pc2.len() && 0 <= c < pc2[t] implies #[trigger] self.entry(t, c) == 0 by {
                        if t < pc.len() {
                            assert(pc2[t] == pc[t]);
                            assert(self.data@[t] == m1.data@[t]);
                            assert(m1.entry(t, c) == 0);
                        } else {
                            assert(m2.entry(t, c) == 0);
                        }
                    }
                    assert forall|t: int, u: int| 0 <= t < u < pc2.len() implies pc2[t] < pc2[u] by {
                        if u < pc.len() {
                        } else {
                            assert(pc[t] < j);
                        }
                    }
                    pc = pc2;
                    if strict {
                        assert(pc =~= Seq::new((pl + 1) as nat, |t: int| t));
                    }
                }
                pl = pl + 1;
            }
            j = j + 1;
        }
        assert(self.echelon(pc) && pc.len() == pl && forall|t: int| 0 <= t < pl ==> #[trigger] pc[t] < lead);
        assert(pl == self.rows || self.zero_below(pl as int, lead as int));
        assert(strict ==> pl == (if lead < self.rows { lead } else { self.rows }));
        Ok(pl)
    }

    /// The first `n` columns are unit columns: column `t` has its one in
    /// row `t` and zeros elsewhere.
    pub open spec fn reduced(&self, n: int) -> bool {
        &&& n <= self.spec_rows()
        &&& n <= self.spec_cols()
        &&& forall|t: int| 0 <= t < n ==> #[trigger] self.entry(t, t) == 1
        &&& forall|t: int, i: int| 0 <= t < n && 0 <= i < self.spec_rows() && i != t ==> #[trigger] self.entry(i, t) == 0
    }

    /// Clears the entries above the first `n` pivots, which stand on the
    /// diagonal.
    fn back_substitute(&mut self, n: usize)
        requires
            old(self).wf(),
            n <= old(self).cols,
            old(self).echelon(Seq::new(n as nat, |t: int| t)),
        ensures
            final(self).wf(),
            final(self).rows == old(self).rows,
            final(self).cols == old(self).cols,
            final(self).poly == old(self).poly,
            final(self).names == old(self).names,
            final(self).reduced(n as int),
            Matrix::row_equivalent(old(self), final(self)),
            forall|i: int| n <= i < old(self).rows ==> #[trigger] final(self).data@[i] == old(self).data@[i],
    {
        let low: u8 = (self.poly % 256) as u8;
        let ghost ops: Seq<RowOp> = Seq::empty();
        proof {
            assert(apply_ops(old(self).rows_view(), ops, low) == self.rows_view());
        }
        let ghost id = Seq::new(n as nat, |t: int| t);
        assert forall|t: int| 0 <= t < n implies #[trigger] self.entry(t, t) == 1 by {
            assert(id[t] == t);
            assert(self.entry(t, id[t]) == 1);
        }
        assert forall|t: int, i: int| 0 <= t < n && t < i < self.rows implies #[trigger] self.entry(i, t) == 0 by {
            assert(id[t] == t);
            assert(self.entry(i, id[t]) == 0);
        }
        let mut jj: usize = n;
        while jj > 0
            invariant
                ops_valid(old(self).rows as nat, ops, low_byte(old(self).poly)),
                apply_ops(old(self).rows_view(), ops, low_byte(old(self).poly)) == self.rows_view(),
                self.wf(),
                self.rows == old(self).rows,
                self.cols == old(self).cols,
                self.poly == old(self).poly,
                self.names == old(self).names,
                low == low_byte(self.poly),
                jj <= n,
                n <= self.rows,
                n <= self.cols,
                forall|t: int| 0 <= t < n ==> #[trigger] self.entry(t, t) == 1,
                forall|t: int, i: int| 0 <= t < n && t < i < self.rows ==> #[trigger] self.entry(i, t) == 0,
                forall|t: int, i: int| jj <= t < n && 0 <= i < t ==> #[trigger] self.entry(i, t) == 0,
                forall|i: int| n <= i < old(self).rows ==> #[trigger] self.data@[i] == old(self).data@[i],
            decreases jj,
        {
            let j: usize = jj - 1;
            let mut i: usize = 0;
            while i < j
                invariant
                    ops_valid(old(self).rows as nat, ops, low_byte(old(self).poly)),
                    apply_ops(old(self).rows_view(), ops, low_byte(old(self).poly)) == self.rows_view(),
                    self.wf(),
                    self.rows == old(self).rows,
                    self.cols == old(self).cols,
                    self.poly == old(self).poly,
                    self.names == old(self).names,
                    low == low_byte(self.poly),
                    j < n,
                    jj == j + 1,
                    n <= self.rows,
                    n <= self.cols,
                    i <= j,
                    forall|t: int| 0 <= t < n ==> #[trigger] self.entry(t, t) == 1,
                    forall|t: int, r: int| 0 <= t < n && t < r < self.rows ==> #[trigger] self.entry(r, t) == 0,
                    forall|t: int, r: int| jj <= t < n && 0 <= r < t ==> #[trigger] self.entry(r, t) == 0,
                    forall|r: int| 0 <= r < i ==> #[trigger] self.entry(r, j as int) == 0,
                    forall|r: int| n <= r < old(self).rows ==> #[trigger] self.data@[r] == old(self).data@[r],
                decreases j - i,
            {
                let f = self.data[i][j];
                let ghost before = *self;
                self.add_scaled_row(i, f, j);
                proof {
                    Matrix::lemma_row_equivalent_step(old(self), self, ops, RowOp::AddScaled { dst: i, factor: f, src: j });
                    ops = ops.push(RowOp::AddScaled { dst: i, factor: f, src: j });
                }
                proof {
                    lemma_mul_one(f, low);
                    lemma_mul_zero_right(f, low, 8);
                    assert(f ^ f == 0u8) by (bit_vector);
                    assert forall|x: u8| x ^ 0u8 == x by {
                        assert(x ^ 0u8 == x) by (bit_vector);
                    }
                    assert(before.entry(j as int, j as int) == 1);
                    assert forall|c: int| 0 <= c < self.cols && before.entry(j as int, c) == 0 implies #[trigger] self.entry(i as int, c) == before.entry(i as int, c) by {
                        assert(self.entry(i as int, c) == before.entry(i as int, c) ^ gf_mul(f, before.entry(j as int, c), low));
                    }
                    assert forall|t: int| 0 <= t < n implies #[trigger] self.entry(t, t) == 1 by {
                        assert(before.entry(t, t) == 1);
                        if t == i {
                            assert(before.entry(j as int, t) == 0);
                            assert(self.entry(i as int, t) == before.entry(i as int, t));
                        } else {
                            assert(self.data@[t] == before.data@[t]);
                        }
                    }
                    assert forall|t: int, r: int| 0 <= t < n && t < r < self.rows implies #[trigger] self.entry(r, t) == 0 by {
                        assert(before.entry(r, t) == 0);
                        if r == i {
                            assert(before.entry(j as int, t) == 0);
                            assert(self.entry(i as int, t) == before.entry(i as int, t));
                        } else {
                            assert(self.data@[r] == before.data@[r]);
                        }
                    }
                    assert forall|t: int, r: int| jj <= t < n && 0 <= r < t implies #[trigger] self.entry(r, t) == 0 by {
                        assert(before.entry(r, t) == 0);
                        if r == i {
                            assert(before.entry(j as int, t) == 0);
                            assert(self.entry(i as int, t) == before.entry(i as int, t));
                        } else {
                            assert(self.data@[r] == before.data@[r]);
                        }
                    }
                    assert forall|r: int| 0 <= r < i + 1 implies #[trigger] self.entry(r, j as int) == 0 by {
                        if r == i {
                            assert(f == before.entry(i as int, j as int));
                            assert(self.entry(i as int, j as int) == before.entry(i as int, j as int) ^ gf_mul(f, before.entry(j as int, j as int), low));
                            assert(self.entry(i as int, j as int) == f ^ gf_mul(f, 1, low));
                        } else {
                            assert(self.data@[r] == before.data@[r]);
                            assert(before.entry(r, j as int) == 0);
                        }
                    }
                }
                i = i + 1;
            }
            jj = j;
        }
    }

    /// Full Gauss-Jordan elimination, column by column from the left. Each
    /// pivot is the largest entry of its column among the rows not yet
    /// used, scaled to one and cleared from every other row. Fails with
    /// `Singular` at the first column that has no such entry.
    pub fn solve(&mut self) -> (r: Result<(), MatrixError>)
        requires
            old(self).wf(),
        ensures
            final(self).wf(),
            final(self).spec_rows() == old(self).spec_rows(),
            final(self).spec_cols() == old(self).spec_cols(),
            final(self).spec_poly() == old(self).spec_poly(),
            final(self).names() == old(self).names(),
            Matrix::row_equivalent(old(self), final(self)),
            match r {
                Ok(()) => final(self).reduced(
                    if old(self).spec_cols() < old(self).spec_rows() { old(self).spec_cols() as int } else { old(self).spec_rows() as int },
                ),
                Err(MatrixError::Singular { column }) => {
                    &&& column < final(self).spec_cols()
                    &&& column < final(self).spec_rows()
                    &&& final(self).echelon(Seq::new(column as nat, |t: int| t))
                    &&& forall|i: int| column <= i < final(self).spec_rows() ==> #[trigger] final(self).entry(i, column as int) == 0
                },
                Err(MatrixError::NotInvertible { column }) => column < final(self).spec_cols() && final(self).spec_poly() != DEFAULT_POLY,
                Err(_) => false,
            },
    {
        let cols = self.cols;
        match self.forward(cols, true) {
            Ok(n) => {
                let ghost mid = *self;
                self.back_substitute(n);
                proof {
                    Matrix::lemma_row_equivalent_trans(old(self), &mid, self);
                }
                Ok(())
            },
            Err(e) => Err(e),
        }
    }

    /// Brings the named variables to the front, in the given order, then
    /// eliminates on those columns as `solve` does.
    pub fn solve_on(&mut self, vars: Vec<String>) -> (r: Result<(), MatrixError>)
        requires
            old(self).wf(),
            vars@.len() <= old(self).spec_cols(),
            distinct(names_view(vars@)),
            forall|k: int| 0 <= k < vars@.len() ==> old(self).names().contains(#[trigger] vars@[k]@),
        ensures
            final(self).wf(),
            final(self).spec_rows() == old(self).spec_rows(),
            final(self).spec_cols() == old(self).spec_cols(),
            final(self).spec_poly() == old(self).spec_poly(),
            forall|k: int| 0 <= k < vars@.len() ==> #[trigger] final(self).name(k) == vars@[k]@,
            exists|p: Seq<int>| is_perm(p, old(self).spec_cols() as int) && forall|j: int|
                0 <= j < old(self).spec_cols() ==> #[trigger] final(self).name(j) == old(self).name(p[j]),
            Matrix::equivalent_up_to_columns(old(self), final(self)),
            match r {
                Ok(()) => final(self).reduced(
                    if vars@.len() < old(self).spec_rows() { vars@.len() as int } else { old(self).spec_rows() as int },
                ),
                Err(MatrixError::Singular { column }) => {
                    &&& column < vars@.len()
                    &&& column < final(self).spec_rows()
                    &&& (column == 0 ==> forall|c: int| 0 <= c < old(self).spec_cols() && #[trigger] old(self).name(c) == vars@[0]@
                        ==> old(self).is_zero_column(c))
                    &&& final(self).echelon(Seq::new(column as nat, |t: int| t))
                    &&& forall|i: int| column <= i < final(self).spec_rows() ==> #[trigger] final(self).entry(i, column as int) == 0
                },
                Err(MatrixError::NotInvertible { column }) => column < vars@.len() && final(self).spec_poly() != DEFAULT_POLY,
                Err(_) => false,
            },
    {
        let lead = vars.len();
        self.sort_left(vars);
        let ghost sorted = *self;
        let r = match self.forward(lead, true) {
            Ok(n) => {
                let ghost mid = *self;
                self.back_substitute(n);
                proof {
                    Matrix::lemma_row_equivalent_trans(&sorted, &mid, self);
                }
                Ok(())
            },
            Err(e) => Err(e),
        };
        proof {
            assert(Matrix::row_equivalent(&sorted, self));
            assert(Matrix::columns_permuted(old(self), &sorted));
            let p = choose|p: Seq<int>| Matrix::permuted_by(old(self), &sorted, p);
            assert(forall|j: int| 0 <= j < old(self).spec_cols() ==> #[trigger] self.name(j) == sorted.name(j));
            if r == Err::<(), MatrixError>(MatrixError::Singular { column: 0 }) {
                assert(*self == sorted);
                assert forall|c: int| 0 <= c < old(self).spec_cols() && #[trigger] old(self).name(c) == vars@[0]@
                    implies old(self).is_zero_column(c) by {
                    assert(sorted.name(0) == old(self).name(p[0]));
                    if c != p[0] {
                        assert(names_view(old(self).names@)[c] != names_view(old(self).names@)[p[0]]);
                    }
                    assert forall|i: int| 0 <= i < old(self).spec_rows() implies #[trigger] old(self).entry(i, c) == 0 by {
                        assert(sorted.entry(i, 0) == old(self).entry(i, p[0]));
                    }
                }
            }
        }
        r
    }

    /// Row echelon form by forward elimination over all columns; a column
    /// with no usable pivot is skipped. Returns the number of pivot rows;
    /// the rows below them are zero.
    pub fn scale(&mut self) -> (r: Result<usize, MatrixError>)
        requires
            old(self).wf(),
        ensures
            final(self).wf(),
            final(self).spec_rows() == old(self).spec_rows(),
            final(self).spec_cols() == old(self).spec_cols(),
            final(self).spec_poly() == old(self).spec_poly(),
            final(self).names() == old(self).names(),
            Matrix::row_equivalent(old(self), final(self)),
            match r {
                Ok(n) => {
                    &&& n <= final(self).spec_rows()
                    &&& exists|pc: Seq<int>| #[trigger] final(self).echelon(pc) && pc.len() == n
                    &&& final(self).zero_below(n as int, final(self).spec_cols() as int)
                    &&& (n == 0 <==> old(self).zero_below(0, old(self).spec_cols() as int))
                    &&& (n == 0 ==> *final(self) == *old(self))
                },
                Err(MatrixError::NotInvertible { column }) => column < final(self).spec_cols() && final(self).spec_poly() != DEFAULT_POLY,
                Err(_) => false,
            },
    {
        let cols = self.cols;
        let r = self.forward(cols, false);
        proof {
            if let Ok(n) = r {
                if n == self.rows {
                    assert(self.zero_below(n as int, cols as int));
                }
            }
        }
        r
    }

    /// Brings the named variables to the front, in the given order, then
    /// reduces to row echelon form on those columns as `scale` does.
    pub fn scale_on(&mut self, vars: Vec<String>) -> (r: Result<usize, MatrixError>)
        requires
            old(self).wf(),
            vars@.len() <= old(self).spec_cols(),
            distinct(names_view(vars@)),
            forall|k: int| 0 <= k < vars@.len() ==> old(self).names().contains(#[trigger] vars@[k]@),
        ensures
            final(self).wf(),
            final(self).spec_rows() == old(self).spec_rows(),
            final(self).spec_cols() == old(self).spec_cols(),
            final(self).spec_poly() == old(self).spec_poly(),
            forall|k: int| 0 <= k < vars@.len() ==> #[trigger] final(self).name(k) == vars@[k]@,
            exists|p: Seq<int>| is_perm(p, old(self).spec_cols() as int) && forall|j: int|
                0 <= j < old(self).spec_cols() ==> #[trigger] final(self).name(j) == old(self).name(p[j]),
            Matrix::equivalent_up_to_columns(old(self), final(self)),
            match r {
                Ok(n) => {
                    &&& n <= final(self).spec_rows()
                    &&& exists|pc: Seq<int>| #[trigger] final(self).echelon(pc) && pc.len() == n
                    &&& final(self).zero_below(n as int, vars@.len() as int)
                },
                Err(MatrixError::NotInvertible { column }) => column < vars@.len() && final(self).spec_poly() != DEFAULT_POLY,
                Err(_) => false,
            },
    {
        let lead = vars.len();
        self.sort_left(vars);
        let ghost sorted = *self;
        let r = self.forward(lead, false);
        proof {
            assert(Matrix::row_equivalent(&sorted, self));
            assert(Matrix::columns_permuted(old(self), &sorted));
            let p = choose|p: Seq<int>| Matrix::permuted_by(old(self), &sorted, p);
            assert(forall|j: int| 0 <= j < old(self).spec_cols() ==> #[trigger] self.name(j) == sorted.name(j));
            if let Ok(n) = r {
                if n == self.rows {
                    assert(self.zero_below(n as int, lead as int));
                }
            }
        }
        r
    }

    /// The rank: the number of nonzero rows once in row echelon form.
    pub fn rank(&mut self) -> (r: Result<usize, MatrixError>)
        requires
            old(self).wf(),
        ensures
            final(self).wf(),
            final(self).spec_rows() == old(self).spec_rows(),
            final(self).spec_cols() == old(self).spec_cols(),
            final(self).names() == old(self).names(),
            Matrix::row_equivalent(old(self), final(self)),
            match r {
                Ok(n) => {
                    &&& exists|pc: Seq<int>| #[trigger] final(self).echelon(pc) && pc.len() == n
                    &&& final(self).zero_below(n as int, final(self).spec_cols() as int)
                    &&& (n == 0 <==> old(self).zero_below(0, old(self).spec_cols() as int))
                },
                Err(MatrixError::NotInvertible { column }) => column < final(self).spec_cols() && final(self).spec_poly() != DEFAULT_POLY,
                Err(_) => false,
            },
    {
        self.scale()
    }

    /// Row `i` is zero on the columns `from..cols`.
    pub open spec fn row_zero_from(&self, i: int, from: int) -> bool {
        forall|c: int| from <= c < self.spec_cols() ==> #[trigger] self.entry(i, c) == 0
    }

    /// How many consecutive rows, ending just above row `i`, are zero on the
    /// columns `from..cols`.
    pub open spec fn trailing_zero_rows(&self, from: int, i: int) -> nat
        decreases i,
    {
        if i <= 0 {
            0
        } else if self.row_zero_from(i - 1, from) {
            1 + self.trailing_zero_rows(from, i - 1)
        } else {
            0
        }
    }

    /// The columns before `k` are exactly those whose variable is not
    /// among `vars`.
    pub open spec fn split_at(&self, vars: Seq<String>, k: int) -> bool {
        &&& 0 <= k <= self.spec_cols()
        &&& forall|j: int| 0 <= j < self.spec_cols() ==> (j < k <==> !has_name(vars, base_name(#[trigger] self.name(j))))
    }

    /// Every variable that can be solved for (not an S-box image) is among
    /// `vars`.
    pub open spec fn covered_by(&self, vars: Seq<String>) -> bool {
        forall|j: int| 0 <= j < self.spec_cols() && !is_image(#[trigger] self.name(j)) ==> has_name(vars, self.name(j))
    }

    /// The residual degrees of freedom of `vars` once the other variables
    /// are eliminated, as `number_solutions` computes it.
    pub open spec fn solutions_left(m: &Matrix, vars: Seq<String>, k: int) -> nat {
        if m.covered_by(vars) {
            0
        } else {
            let z = m.trailing_zero_rows(k, m.spec_rows() as int);
            if z <= vars.len() {
                (vars.len() - z) as nat
            } else {
                0
            }
        }
    }

    /// `m` is the reduced form that `number_solutions` leaves for `vars`,
    /// and `n` the number of solutions it reads from it.
    pub open spec fn counts_solutions(m: &Matrix, vars: Seq<String>, n: nat) -> bool {
        exists|k: int| {
            &&& #[trigger] m.split_at(vars, k)
            &&& exists|pc: Seq<int>| #[trigger] m.echelon(pc) && m.zero_below(pc.len() as int, k)
            &&& n == Matrix::solutions_left(m, vars, k)
        }
    }

    /// Whether row `i` is zero on the columns `from..cols`.
    fn is_row_zero_from(&self, i: usize, from: usize) -> (r: bool)
        requires
            self.wf(),
            i < self.rows,
        ensures
            r == self.row_zero_from(i as int, from as int),
    {
        let mut c: usize = from;
        while c < self.cols
            invariant
                self.wf(),
                i < self.rows,
                from <= c,
                forall|d: int| from <= d < c ==> #[trigger] self.entry(i as int, d) == 0,
            decreases self.cols - c,
        {
            if self.data[i][c] != 0 {
                assert(self.entry(i as int, c as int) != 0);
                return false;
            }
            c = c + 1;
        }
        true
    }

    /// The size of the solution space of `vars`: the columns of every other
    /// variable (an S-box image goes with its variable) are brought to the
    /// front and reduced to row echelon form; then the rows at the bottom
    /// that are zero on the columns of `vars` are counted, and the result is
    /// `|vars|` less that count (never below zero). When `vars` covers every
    /// variable that can be solved for, the system is determined: zero. The
    /// matrix is left in its reduced form.
    pub fn number_solutions(&mut self, vars: &Vec<String>) -> (r: Result<usize, MatrixError>)
        requires
            old(self).wf(),
            distinct(names_view(vars@)),
        ensures
            final(self).wf(),
            final(self).spec_rows() == old(self).spec_rows(),
            final(self).spec_cols() == old(self).spec_cols(),
            final(self).spec_poly() == old(self).spec_poly(),
            exists|p: Seq<int>| is_perm(p, old(self).spec_cols() as int) && forall|j: int|
                0 <= j < old(self).spec_cols() ==> #[trigger] final(self).name(j) == old(self).name(p[j]),
            Matrix::same_names(old(self), final(self)),
            Matrix::equivalent_up_to_columns(old(self), final(self)),
            match r {
                Ok(n) => Matrix::counts_solutions(final(self), vars@, n as nat),
                Err(MatrixError::NotInvertible { column }) => column < final(self).spec_cols() && final(self).spec_poly() != DEFAULT_POLY,
                Err(_) => false,
            },
    {
        let mut not_vars: Vec<String> = Vec::new();
        let ghost idx: Seq<int> = Seq::empty();
        let mut j: usize = 0;
        while j < self.cols
            invariant
                self.wf(),
                j <= self.cols,
                not_vars@.len() == idx.len(),
                not_vars@.len() <= j,
                forall|t: int| 0 <= t < idx.len() ==> 0 <= #[trigger] idx[t] < j,
                forall|t: int, u: int| 0 <= t < u < idx.len() ==> idx[t] < idx[u],
                forall|t: int| 0 <= t < idx.len() ==> #[trigger] not_vars@[t]@ == self.name(idx[t]),
                forall|t: int| 0 <= t < idx.len() ==> !has_name(vars@, base_name(self.name(#[trigger] idx[t]))),
                forall|c: int| 0 <= c < j && !has_name(vars@, base_name(#[trigger] self.name(c))) ==> exists|t: int| 0 <= t < idx.len() && idx[t] == c,
            decreases self.cols - j,
        {
            let b = base_of(&self.names[j]);
            assert(b@ == base_name(self.name(j as int)));
            let ghost idx0 = idx;
            if !contains_name(vars, &b) {
                proof {
                    idx = idx.push(j as int);
                }
                not_vars.push(self.names[j].clone());
                assert(idx[idx.len() - 1] == j);
            }
            proof {
                assert forall|c: int| 0 <= c < j + 1 && !has_name(vars@, base_name(#[trigger] self.name(c))) implies exists|t: int| 0 <= t < idx.len() && idx[t] == c by {
                    if c < j {
                        let t = choose|t: int| 0 <= t < idx0.len() && idx0[t] == c;
                        assert(idx[t] == idx0[t]);
                    } else {
                        assert(idx[idx.len() - 1] == j);
                    }
                }
            }
            j = j + 1;
        }
        let k = not_vars.len();
        proof {
            assert forall|a: int, b: int| 0 <= a < k && 0 <= b < k && a != b implies names_view(not_vars@)[a] != names_view(not_vars@)[b] by {
                assert(idx[a] != idx[b]) by {
                    if a < b {
                        assert(idx[a] < idx[b]);
                    } else {
                        assert(idx[b] < idx[a]);
                    }
                }
                assert(names_view(self.names@)[idx[a]] != names_view(self.names@)[idx[b]]);
            }
            assert forall|t: int| 0 <= t < k implies self.names().contains(#[trigger] not_vars@[t]@) by {
                assert(self.names()[idx[t]] == self.name(idx[t]));
            }
        }
        let ghost m0 = *self;
        let ghost nv = not_vars@;
        let scaled = self.scale_on(not_vars);
        proof {
            let p = choose|p: Seq<int>| is_perm(p, m0.spec_cols() as int) && forall|j: int|
                0 <= j < m0.spec_cols() ==> #[trigger] self.name(j) == m0.name(p[j]);
            Matrix::lemma_permuted_same_names(&m0, self, p);
            assert forall|j: int| 0 <= j < self.cols implies (j < k <==> !has_name(vars@, base_name(#[trigger] self.name(j)))) by {
                if j < k {
                    assert(self.name(j) == nv[j]@);
                    assert(nv[j]@ == m0.name(idx[j]));
                } else {
                    if !has_name(vars@, base_name(self.name(j))) {
                        assert(self.name(j) == m0.name(p[j]));
                        assert(0 <= p[j] < m0.cols);
                        let t = choose|t: int| 0 <= t < idx.len() && idx[t] == p[j];
                        assert(self.name(t) == nv[t]@);
                        assert(names_view(self.names@)[t] == names_view(self.names@)[j]);
                    }
                }
            }
            assert(self.split_at(vars@, k as int));
        }
        let n = match scaled {
            Ok(n) => n,
            Err(e) => {
                return Err(e);
            },
        };
        let mut covered = true;
        let mut c: usize = 0;
        while c < self.cols
            invariant
                self.wf(),
                c <= self.cols,
                covered == forall|d: int| 0 <= d < c && !is_image(#[trigger] self.name(d)) ==> has_name(vars@, self.name(d)),
            decreases self.cols - c,
        {
            assert(self.names@[c as int]@ == self.name(c as int));
            if !is_image_name(&self.names[c]) && !contains_name(vars, &self.names[c]) {
                covered = false;
            }
            c = c + 1;
        }
        if covered {
            return Ok(0);
        }
        let mut i: usize = self.rows;
        let mut zeros: usize = 0;
        while i > 0 && self.is_row_zero_from(i - 1, k)
            invariant
                self.wf(),
                i <= self.rows,
                zeros == self.rows - i,
                self.trailing_zero_rows(k as int, self.rows as int) == zeros + self.trailing_zero_rows(k as int, i as int),
            decreases i,
        {
            i = i - 1;
            zeros = zeros + 1;
        }
        let count = vars.len();
        if zeros <= count {
            Ok(count - zeros)
        } else {
            Ok(0)
        }
    }
}

impl PartialEq for Matrix {
    /// Two matrices are equal when they have the same shape, the same
    /// column names and the same entries.
    fn eq(&self, other: &Matrix) -> bool {
        if self.rows != other.rows || self.cols != other.cols || self.names.len() != other.names.len() || self.data.len() != other.data.len() {
            return false;
        }
        let mut j: usize = 0;
        while j < self.names.len()
            invariant
                self.names@.len() == other.names@.len(),
                j <= self.names@.len(),
                forall|k: int| 0 <= k < j ==> self.names@[k]@ == other.names@[k]@,
            decreases self.names@.len() - j,
        {
            if self.names[j] != other.names[j] {
                return false;
            }
            j = j + 1;
        }
        let mut i: usize = 0;
        while i < self.data.len()
            invariant
                self.data@.len() == other.data@.len(),
                i <= self.data@.len(),
                forall|k: int| 0 <= k < i ==> #[trigger] self.data@[k]@ == other.data@[k]@,
            decreases self.data@.len() - i,
        {
            if self.data[i].len() != other.data[i].len() {
                return false;
            }
            let mut c: usize = 0;
            while c < self.data[i].len()
                invariant
                    i < self.data@.len(),
                    self.data@.len() == other.data@.len(),
                    self.data@[i as int]@.len() == other.data@[i as int]@.len(),
                    c <= self.data@[i as int]@.len(),
                    forall|d: int| 0 <= d < c ==> self.data@[i as int]@[d] == other.data@[i as int]@[d],
                decreases self.data@[i as int]@.len() - c,
            {
                if self.data[i][c] != other.data[i][c] {
                    return false;
                }
                c = c + 1;
            }
            i = i + 1;
        }
        true
    }
}

impl vstd::std_specs::cmp::PartialEqSpecImpl for Matrix {
    open spec fn obeys_eq_spec() -> bool {
        false
    }

    open spec fn eq_spec(&self, other: &Matrix) -> bool {
        true
    }
}

impl Matrix {
    /// Row `i` is zero on every column.
    pub open spec fn is_zero_row(&self, i: int) -> bool {
        forall|c: int| 0 <= c < self.spec_cols() ==> #[trigger] self.entry(i, c) == 0
    }

    /// Column `j` is zero on every row.
    pub open spec fn is_zero_column(&self, j: int) -> bool {
        forall|i: int| 0 <= i < self.spec_rows() ==> #[trigger] self.entry(i, j) == 0
    }

    /// Every column of `new` is a column of `old` with the same name and
    /// entries.
    pub open spec fn columns_kept_from(old: &Matrix, new: &Matrix) -> bool {
        &&& new.spec_rows() == old.spec_rows()
        &&& forall|j: int| 0 <= j < new.spec_cols() ==> old.names().contains(#[trigger] new.name(j))
        &&& forall|i: int, j: int, c: int|
            0 <= i < new.spec_rows() && 0 <= j < new.spec_cols() && 0 <= c < old.spec_cols() && #[trigger] new.name(j)
                == #[trigger] old.name(c) ==> #[trigger] new.entry(i, j) == old.entry(i, c)
    }

    /// Whether column `j` is zero on every row.
    fn column_is_zero(&self, j: usize) -> (r: bool)
        requires
            self.wf(),
            j < self.cols,
        ensures
            r == self.is_zero_column(j as int),
    {
        let mut i: usize = 0;
        while i < self.rows
            invariant
                self.wf(),
                j < self.cols,
                i <= self.rows,
                forall|k: int| 0 <= k < i ==> #[trigger] self.entry(k, j as int) == 0,
            decreases self.rows - i,
        {
            if self.data[i][j] != 0 {
                assert(self.entry(i as int, j as int) != 0);
                return false;
            }
            i = i + 1;
        }
        true
    }

    /// Deletes every row made only of zeros; the other rows keep their
    /// order.
    pub fn delete_empty_rows(&mut self)
        requires
            old(self).wf(),
        ensures
            final(self).wf(),
            final(self).spec_cols() == old(self).spec_cols(),
            final(self).names() == old(self).names(),
            final(self).spec_rows() <= old(self).spec_rows(),
            forall|i: int| 0 <= i < final(self).spec_rows() ==> !#[trigger] final(self).is_zero_row(i),
            exists|idx: Seq<int>| #[trigger] Matrix::rows_kept_at(old(self), final(self), idx),
            final(self).spec_poly() == old(self).spec_poly(),
    {
        let ghost idx = Seq::new(self.rows as nat, |t: int| t);
        assert forall|c: int| 0 <= c < old(self).spec_rows() && !#[trigger] old(self).is_zero_row(c) implies exists|t: int| 0 <= t < idx.len() && idx[t] == c by {
            assert(idx[c] == c);
        }
        let mut i: usize = 0;
        while i < self.rows
            invariant
                self.wf(),
                old(self).wf(),
                self.cols == old(self).cols,
                self.poly == old(self).poly,
                self.names() == old(self).names(),
                self.rows <= old(self).rows,
                i <= self.rows,
                forall|k: int| 0 <= k < i ==> !#[trigger] self.is_zero_row(k),
                Matrix::rows_kept_at(old(self), self, idx),
            decreases self.rows - i, self.rows,
        {
            if self.is_row_zero_from(i, 0) {
                let ghost before = *self;
                let ghost idx0 = idx;
                let _ = self.delete_row(i);
                proof {
                    idx = idx0.remove(i as int);
                    assert forall|k: int| 0 <= k < i implies !#[trigger] self.is_zero_row(k) by {
                        assert(!before.is_zero_row(k));
                        let c = choose|c: int| 0 <= c < before.spec_cols() && before.entry(k, c) != 0;
                        assert(self.entry(k, c) == before.entry(k, c));
                    }
                    assert forall|t: int, c: int| 0 <= t < idx.len() && 0 <= c < self.spec_cols() implies #[trigger] self.entry(t, c) == old(self).entry(idx[t], c) by {
                        assert(self.entry(t, c) == before.entry(skip_index(t, i as int), c));
                        assert(idx[t] == idx0[skip_index(t, i as int)]);
                    }
                    assert forall|c: int| 0 <= c < old(self).spec_rows() && !#[trigger] old(self).is_zero_row(c) implies exists|t: int| 0 <= t < idx.len() && idx[t] == c by {
                        let t0 = choose|t: int| 0 <= t < idx0.len() && idx0[t] == c;
                        if t0 == i {
                            let d = choose|d: int| 0 <= d < old(self).spec_cols() && old(self).entry(c, d) != 0;
                            assert(before.entry(i as int, d) == old(self).entry(c, d));
                            assert(before.row_zero_from(i as int, 0));
                        } else if t0 < i {
                            assert(idx[t0] == idx0[t0]);
                        } else {
                            assert(idx[t0 - 1] == idx0[t0]);
                        }
                    }
                }
            } else {
                assert(!self.is_zero_row(i as int)) by {
                    let c = choose|c: int| 0 <= c < self.cols && self.entry(i as int, c) != 0;
                }
                i = i + 1;
            }
        }
    }

    /// Row `t` of `new` is row `idx[t]` of `old`, in increasing order, and
    /// every nonzero row of `old` is among them.
    pub open spec fn rows_kept_at(old: &Matrix, new: &Matrix, idx: Seq<int>) -> bool {
        &&& idx.len() == new.spec_rows()
        &&& forall|t: int| 0 <= t < idx.len() ==> 0 <= #[trigger] idx[t] < old.spec_rows()
        &&& forall|t: int, u: int| 0 <= t < u < idx.len() ==> idx[t] < idx[u]
        &&& forall|t: int, c: int| 0 <= t < idx.len() && 0 <= c < new.spec_cols() ==> #[trigger] new.entry(t, c) == old.entry(idx[t], c)
        &&& forall|c: int| 0 <= c < old.spec_rows() && !#[trigger] old.is_zero_row(c) ==> exists|t: int| 0 <= t < idx.len() && idx[t] == c
    }

    /// Deletes every column made only of zeros, with its name; the other
    /// columns keep their order.
    pub fn delete_empty_colums(&mut self)
        requires
            old(self).wf(),
        ensures
            final(self).wf(),
            final(self).spec_rows() == old(self).spec_rows(),
            final(self).spec_cols() <= old(self).spec_cols(),
            forall|j: int| 0 <= j < final(self).spec_cols() ==> !#[trigger] final(self).is_zero_column(j),
            Matrix::columns_kept_from(old(self), final(self)),
            forall|c: int| 0 <= c < old(self).spec_cols() && !#[trigger] old(self).is_zero_column(c) ==> final(self).names().contains(old(self).name(c)),
            final(self).spec_poly() == old(self).spec_poly(),
    {
        let ghost idx = Seq::new(self.cols as nat, |t: int| t);
        assert forall|c: int| 0 <= c < old(self).cols && !#[trigger] old(self).is_zero_column(c) implies exists|t: int| 0 <= t < idx.len() && idx[t] == c by {
            assert(idx[c] == c);
        }
        let mut j: usize = 0;
        while j < self.cols
            invariant
                self.wf(),
                old(self).wf(),
                self.rows == old(self).rows,
                self.poly == old(self).poly,
                self.cols <= old(self).cols,
                j <= self.cols,
                forall|k: int| 0 <= k < j ==> !#[trigger] self.is_zero_column(k),
                idx.len() == self.cols,
                forall|t: int| 0 <= t < idx.len() ==> 0 <= #[trigger] idx[t] < old(self).cols,
                forall|t: int, u: int| 0 <= t < u < idx.len() ==> idx[t] < idx[u],
                forall|t: int| 0 <= t < idx.len() ==> #[trigger] self.name(t) == old(self).name(idx[t]),
                forall|i: int, t: int| 0 <= i < self.rows && 0 <= t < idx.len() ==> #[trigger] self.entry(i, t) == old(self).entry(i, idx[t]),
                forall|c: int| 0 <= c < old(self).cols && !#[trigger] old(self).is_zero_column(c) ==> exists|t: int| 0 <= t < idx.len() && idx[t] == c,
            decreases self.cols - j, self.cols,
        {
            if self.column_is_zero(j) {
                let ghost before = *self;
                let ghost idx0 = idx;
                let _ = self.delete_column(j);
                proof {
                    idx = idx0.remove(j as int);
                    assert forall|k: int| 0 <= k < j implies !#[trigger] self.is_zero_column(k) by {
                        assert(!before.is_zero_column(k));
                        let i = choose|i: int| 0 <= i < before.spec_rows() && before.entry(i, k) != 0;
                        assert(self.entry(i, k) == before.entry(i, k));
                    }
                    assert forall|t: int| 0 <= t < idx.len() implies #[trigger] self.name(t) == old(self).name(idx[t]) by {
                        assert(self.names()[t] == self.name(t));
                        assert(before.names()[skip_index(t, j as int)] == before.name(skip_index(t, j as int)));
                        assert(idx[t] == idx0[skip_index(t, j as int)]);
                    }
                    assert forall|i: int, t: int| 0 <= i < self.rows && 0 <= t < idx.len() implies #[trigger] self.entry(i, t) == old(self).entry(i, idx[t]) by {
                        assert(self.entry(i, t) == before.entry(i, skip_index(t, j as int)));
                        assert(idx[t] == idx0[skip_index(t, j as int)]);
                    }
                    assert forall|c: int| 0 <= c < old(self).cols && !#[trigger] old(self).is_zero_column(c) implies exists|t: int| 0 <= t < idx.len() && idx[t] == c by {
                        let t0 = choose|t: int| 0 <= t < idx0.len() && idx0[t] == c;
                        if t0 == j {
                            let i = choose|i: int| 0 <= i < old(self).spec_rows() && old(self).entry(i, c) != 0;
                            assert(before.entry(i, j as int) == old(self).entry(i, c));
                            assert(before.is_zero_column(j as int));
                        } else if t0 < j {
                            assert(idx[t0] == idx0[t0]);
                        } else {
                            assert(idx[t0 - 1] == idx0[t0]);
                        }
                    }
                }
            } else {
                j = j + 1;
            }
        }
        proof {
            assert forall|j2: int| 0 <= j2 < self.spec_cols() implies old(self).names().contains(#[trigger] self.name(j2)) by {
                assert(old(self).names()[idx[j2]] == old(self).name(idx[j2]));
            }
            assert forall|i: int, j2: int, c: int|
                0 <= i < self.spec_rows() && 0 <= j2 < self.spec_cols() && 0 <= c < old(self).spec_cols() && #[trigger] self.name(j2)
                    == #[trigger] old(self).name(c) implies #[trigger] self.entry(i, j2) == old(self).entry(i, c) by {
                if c != idx[j2] {
                    assert(names_view(old(self).names@)[c] != names_view(old(self).names@)[idx[j2]]);
                }
            }
            assert forall|c: int| 0 <= c < old(self).spec_cols() && !#[trigger] old(self).is_zero_column(c) implies self.names().contains(old(self).name(c)) by {
                let t = choose|t: int| 0 <= t < idx.len() && idx[t] == c;
                assert(self.names()[t] == self.name(t));
            }
        }
    }

    /// The number of rows before row `i` that are not made only of zeros.
    pub open spec fn nonzero_rows(&self, i: int) -> nat
        decreases i,
    {
        if i <= 0 {
            0
        } else {
            self.nonzero_rows(i - 1) + if self.is_zero_row(i - 1) {
                0nat
            } else {
                1nat
            }
        }
    }

    /// The number of rows that are not made only of zeros.
    pub fn count_no_zero_rows(&self) -> (r: u32)
        requires
            self.wf(),
            self.spec_rows() <= u32::MAX,
        ensures
            r == self.nonzero_rows(self.spec_rows() as int),
    {
        let mut count: u32 = 0;
        let mut i: usize = 0;
        while i < self.rows
            invariant
                self.wf(),
                self.rows <= u32::MAX,
                i <= self.rows,
                count == self.nonzero_rows(i as int),
                count <= i,
            decreases self.rows - i,
        {
            let z = self.is_row_zero_from(i, 0);
            assert(z == self.is_zero_row(i as int)) by {
                if !z {
                    let c = choose|c: int| 0 <= c < self.cols && self.entry(i as int, c) != 0;
                }
            }
            if !z {
                count = count + 1;
            }
            i = i + 1;
        }
        count
    }

    /// Every entry of column `j` is at most `r`.
    pub open spec fn col_within(&self, j: int, r: int) -> bool {
        forall|i: int| 0 <= i < self.spec_rows() ==> #[trigger] self.entry(i, j) as int <= r
    }

    /// The columns whose entries are all at most `r`, in increasing order.
    pub fn get_col_of_max_rank(&self, r: usize) -> (res: Vec<usize>)
        requires
            self.wf(),
        ensures
            forall|k: int, l: int| 0 <= k < l < res@.len() ==> res@[k] < res@[l],
            forall|k: int| 0 <= k < res@.len() ==> #[trigger] res@[k] < self.spec_cols() && self.col_within(res@[k] as int, r as int),
            forall|j: int| 0 <= j < self.spec_cols() && #[trigger] self.col_within(j, r as int) ==> res@.contains(j as usize),
    {
        let mut res: Vec<usize> = Vec::new();
        let mut j: usize = 0;
        while j < self.cols
            invariant
                self.wf(),
                j <= self.cols,
                forall|k: int, l: int| 0 <= k < l < res@.len() ==> res@[k] < res@[l],
                forall|k: int| 0 <= k < res@.len() ==> #[trigger] res@[k] < j && self.col_within(res@[k] as int, r as int),
                forall|c: int| 0 <= c < j && #[trigger] self.col_within(c, r as int) ==> res@.contains(c as usize),
            decreases self.cols - j,
        {
            let mut ok = true;
            let mut i: usize = 0;
            while i < self.rows
                invariant
                    self.wf(),
                    j < self.cols,
                    i <= self.rows,
                    ok == forall|k: int| 0 <= k < i ==> #[trigger] self.entry(k, j as int) as int <= r,
                decreases self.rows - i,
            {
                assert(self.entry(i as int, j as int) == self.data@[i as int]@[j as int]);
                if self.data[i][j] as usize > r {
                    ok = false;
                }
                i = i + 1;
            }
            let ghost res0 = res@;
            if ok {
                res.push(j);
                assert(res@[res@.len() - 1] == j);
            }
            proof {
                assert forall|c: int| 0 <= c < j + 1 && #[trigger] self.col_within(c, r as int) implies res@.contains(c as usize) by {
                    if c < j {
                        let k = choose|k: int| 0 <= k < res0.len() && res0[k] == c as usize;
                        assert(res@[k] == c as usize);
                    }
                }
                assert forall|k: int| 0 <= k < res@.len() implies #[trigger] res@[k] < j + 1 && self.col_within(res@[k] as int, r as int) by {
                    if k < res0.len() {
                        assert(res@[k] == res0[k]);
                    }
                }
            }
            j = j + 1;
        }
        res
    }

    /// The names of the columns whose entries are all at most `r`.
    pub fn get_variable_of_max_rank(&self, r: usize) -> (res: Vec<String>)
        requires
            self.wf(),
        ensures
            res@.len() <= self.spec_cols(),
            forall|k: int| 0 <= k < res@.len() ==> #[trigger] self.names().contains(res@[k]@),
            forall|j: int| 0 <= j < self.spec_cols() && #[trigger] self.col_within(j, r as int) ==> has_name(res@, self.name(j)),
    {
        let cols = self.get_col_of_max_rank(r);
        let mut res: Vec<String> = Vec::new();
        let mut k: usize = 0;
        while k < cols.len()
            invariant
                self.wf(),
                k <= cols@.len(),
                res@.len() == k,
                forall|a: int| 0 <= a < cols@.len() ==> #[trigger] cols@[a] < self.spec_cols(),
                forall|a: int| 0 <= a < res@.len() ==> #[trigger] self.names().contains(res@[a]@),
                forall|a: int| 0 <= a < k ==> #[trigger] res@[a]@ == self.name(cols@[a] as int),
            decreases cols@.len() - k,
        {
            let j = cols[k];
            assert(cols@[k as int] < self.spec_cols());
            let ghost res0 = res@;
            res.push(self.names[j].clone());
            proof {
                assert(self.names()[j as int] == self.names@[j as int]@);
                assert forall|a: int| 0 <= a < res@.len() implies #[trigger] self.names().contains(res@[a]@) by {
                    if a < res0.len() {
                        assert(res@[a] == res0[a]);
                    }
                }
                assert forall|a: int| 0 <= a < k + 1 implies #[trigger] res@[a]@ == self.name(cols@[a] as int) by {
                    if a < res0.len() {
                        assert(res@[a] == res0[a]);
                    }
                }
            }
            k = k + 1;
        }
        proof {
            let inc = |a: int, b: int| cols@[a] < cols@[b];
            assert(res@.len() == cols@.len());
            assert(cols@.len() <= self.spec_cols()) by {
                lemma_increasing_bounded(cols@, self.spec_cols() as int);
            }
            assert forall|j: int| 0 <= j < self.spec_cols() && #[trigger] self.col_within(j, r as int) implies has_name(res@, self.name(j)) by {
                assert(cols@.contains(j as usize));
                let a = choose|a: int| 0 <= a < cols@.len() && cols@[a] == j as usize;
                assert(res@[a]@ == self.name(j));
            }
        }
        res
    }
}

impl Matrix {
    /// The columns named `vars`, in that order, as a matrix of their own.
    pub fn get_matrix_generated_by(&self, vars: &Vec<String>) -> (m: Matrix)
        requires
            self.wf(),
            distinct(names_view(vars@)),
            forall|k: int| 0 <= k < vars@.len() ==> self.names().contains(#[trigger] vars@[k]@),
        ensures
            m.wf(),
            m.spec_rows() == self.spec_rows(),
            m.spec_cols() == vars@.len(),
            m.spec_poly() == self.spec_poly(),
            m.names() == names_view(vars@),
            forall|i: int, j: int, c: int|
                0 <= i < m.spec_rows() && 0 <= j < m.spec_cols() && 0 <= c < self.spec_cols() && #[trigger] self.name(c) == vars@[j]@
                    ==> #[trigger] m.entry(i, j) == self.entry(i, c),
    {
        let mut cols_of: Vec<usize> = Vec::new();
        let mut k: usize = 0;
        while k < vars.len()
            invariant
                self.wf(),
                k <= vars@.len(),
                cols_of@.len() == k,
                forall|k2: int| 0 <= k2 < vars@.len() ==> self.names().contains(#[trigger] vars@[k2]@),
                forall|a: int| 0 <= a < k ==> #[trigger] cols_of@[a] < self.cols && self.name(cols_of@[a] as int) == vars@[a]@,
            decreases vars@.len() - k,
        {
            assert(self.names().contains(vars@[k as int]@));
            let found = self.column_of(&vars[k]);
            proof {
                if found is None {
                    let w = choose|w: int| 0 <= w < self.names().len() && self.names()[w] == vars@[k as int]@;
                    assert(self.name(w) == self.names()[w]);
                }
            }
            cols_of.push(found.unwrap());
            k = k + 1;
        }
        let mut data: Vec<Vec<u8>> = Vec::new();
        let mut i: usize = 0;
        while i < self.rows
            invariant
                self.wf(),
                cols_of@.len() == vars@.len(),
                forall|a: int| 0 <= a < vars@.len() ==> #[trigger] cols_of@[a] < self.cols && self.name(cols_of@[a] as int) == vars@[a]@,
                i <= self.rows,
                data@.len() == i,
                forall|r: int| 0 <= r < i ==> #[trigger] data@[r]@.len() == vars@.len(),
                forall|r: int, j: int| 0 <= r < i && 0 <= j < vars@.len() ==> #[trigger] data@[r]@[j] == self.entry(r, cols_of@[j] as int),
            decreases self.rows - i,
        {
            let mut row: Vec<u8> = Vec::new();
            let mut j: usize = 0;
            while j < cols_of.len()
                invariant
                    self.wf(),
                    i < self.rows,
                    cols_of@.len() == vars@.len(),
                    forall|a: int| 0 <= a < vars@.len() ==> #[trigger] cols_of@[a] < self.cols,
                    j <= cols_of@.len(),
                    row@.len() == j,
                    forall|a: int| 0 <= a < j ==> #[trigger] row@[a] == self.entry(i as int, cols_of@[a] as int),
                decreases cols_of@.len() - j,
            {
                assert(cols_of@[j as int] < self.cols);
                row.push(self.data[i][cols_of[j]]);
                j = j + 1;
            }
            data.push(row);
            i = i + 1;
        }
        let names = copy_names(vars);
        let m = Matrix { names, rows: self.rows, cols: vars.len(), data, poly: self.poly };
        proof {
            assert(names_view(m.names@) =~= names_view(vars@));
            assert forall|i: int, j: int, c: int| 0 <= i < m.spec_rows() && 0 <= j < m.spec_cols() && 0 <= c < self.spec_cols()
                && #[trigger] self.name(c) == vars@[j]@ implies #[trigger] m.entry(i, j) == self.entry(i, c) by {
                assert(m.entry(i, j) == self.entry(i, cols_of@[j] as int));
                assert(cols_of@[j] < self.cols && self.name(cols_of@[j] as int) == vars@[j]@);
                if c != cols_of@[j] as int {
                    assert(names_view(self.names@)[c] != names_view(self.names@)[cols_of@[j] as int]);
                }
            }
        }
        m
    }

    /// The number of rows before row `i` whose entry in column `column` is one.
    pub open spec fn ones_in_column(&self, column: int, i: int) -> nat
        decreases i,
    {
        if i <= 0 {
            0
        } else {
            self.ones_in_column(column, i - 1) + if self.entry(i - 1, column) == 1 {
                1nat
            } else {
                0nat
            }
        }
    }

    /// Whether column `column` holds exactly one entry equal to one.
    pub fn is_only_one_1_on_column(&self, column: usize) -> (r: bool)
        requires
            self.wf(),
            column < self.spec_cols(),
        ensures
            r == (self.ones_in_column(column as int, self.spec_rows() as int) == 1),
    {
        let mut count: usize = 0;
        let mut i: usize = 0;
        while i < self.rows
            invariant
                self.wf(),
                column < self.cols,
                i <= self.rows,
                count == self.ones_in_column(column as int, i as int),
                count <= i,
            decreases self.rows - i,
        {
            if self.data[i][column] == 1 {
                count = count + 1;
            }
            i = i + 1;
        }
        count == 1
    }
}

impl Matrix {
    /// Whether the matrix has a column named `name`.
    fn has_column(&self, name: &String) -> (r: bool)
        requires
            self.wf(),
        ensures
            r == self.names().contains(name@),
    {
        match self.column_of(name) {
            Some(j) => {
                assert(self.names()[j as int] == self.name(j as int));
                true
            },
            None => {
                assert forall|k: int| 0 <= k < self.names().len() implies self.names()[k] != name@ by {
                    assert(self.names()[k] == self.name(k));
                }
                false
            },
        }
    }

    /// Removes `variable` from the system: its column is brought to the
    /// front and eliminated; it must then hold a single one (else
    /// `ConsistencyViolation`). The column goes for a plaintext, ciphertext
    /// or key variable (a name holding `P`, `C` or `KV`), the pivot row for
    /// any other; then the columns left all zero go too.
    pub fn remove_variable(&mut self, variable: String) -> (r: Result<(), MatrixError>)
        requires
            old(self).wf(),
            old(self).names().contains(variable@),
        ensures
            final(self).wf(),
            final(self).spec_rows() <= old(self).spec_rows(),
            final(self).spec_cols() <= old(self).spec_cols(),
            forall|j: int| 0 <= j < final(self).spec_cols() ==> old(self).names().contains(#[trigger] final(self).name(j)),
            r is Ok ==> !final(self).names().contains(variable@),
            r is Ok ==> final(self).spec_rows() + final(self).spec_cols() < old(self).spec_rows() + old(self).spec_cols(),
            old(self).spec_poly() == DEFAULT_POLY && old(self).spec_rows() > 0 && (forall|c: int|
                0 <= c < old(self).spec_cols() && #[trigger] old(self).name(c) == variable@ ==> !old(self).is_zero_column(c))
                ==> r is Ok,
            match r {
                Ok(()) => true,
                Err(MatrixError::Singular { .. }) => final(self).spec_cols() > 0 && final(self).name(0) == variable@
                    && final(self).is_zero_column(0),
                Err(MatrixError::NotInvertible { .. }) => old(self).spec_poly() != DEFAULT_POLY,
                Err(MatrixError::ConsistencyViolation) => old(self).spec_rows() == 0 && final(self).spec_rows() == 0,
                Err(_) => false,
            },
            final(self).spec_poly() == old(self).spec_poly(),
    {
        let ghost v = variable@;
        let mut vars: Vec<String> = Vec::new();
        vars.push(variable.clone());
        assert(names_view(vars@)[0] == variable@);
        assert(distinct(names_view(vars@)));
        let ghost m0 = *self;
        let ghost vs = vars@;
        if let Err(e) = self.solve_on(vars) {
            proof {
                if m0.spec_poly() == DEFAULT_POLY && m0.spec_rows() > 0 {
                    assert(vs[0]@ == v);
                    let k = choose|k: int| 0 <= k < m0.names().len() && m0.names()[k] == v;
                    assert(m0.names()[k] == m0.name(k));
                    if let MatrixError::Singular { column } = e {
                        assert(column == 0);
                        assert(m0.is_zero_column(k));
                    }
                }
                let p = choose|p: Seq<int>| is_perm(p, m0.spec_cols() as int) && forall|j: int|
                    0 <= j < m0.spec_cols() ==> #[trigger] self.name(j) == m0.name(p[j]);
                assert forall|j: int| 0 <= j < self.spec_cols() implies m0.names().contains(#[trigger] self.name(j)) by {
                    assert(m0.names()[p[j]] == m0.name(p[j]));
                }
            }
            return Err(e);
        }
        let ghost m1 = *self;
        proof {
            let p = choose|p: Seq<int>| is_perm(p, m0.spec_cols() as int) && forall|j: int|
                0 <= j < m0.spec_cols() ==> #[trigger] self.name(j) == m0.name(p[j]);
            assert forall|j: int| 0 <= j < self.spec_cols() implies m0.names().contains(#[trigger] self.name(j)) by {
                assert(m0.names()[p[j]] == m0.name(p[j]));
            }
            if self.rows > 0 {
                lemma_unit_column_ones(self, self.rows as int);
            }
        }
        if self.cols == 0 || !self.is_only_one_1_on_column(0) {
            return Err(MatrixError::ConsistencyViolation);
        }
        if self.rows == 0 {
            assert(self.ones_in_column(0, 0) == 0);
            return Err(MatrixError::ConsistencyViolation);
        }
        let kept_as_column = contains_str(&variable, &"P".to_owned()) || contains_str(&variable, &"C".to_owned())
            || contains_str(&variable, &"KV".to_owned());
        if kept_as_column {
            let _ = self.delete_column(0);
            proof {
                assert(m1.name(0) == v);
                assert forall|j: int| 0 <= j < self.spec_cols() implies self.name(j) != v by {
                    assert(self.names()[j] == m1.names()[j + 1]);
                    assert(names_view(m1.names@)[j + 1] != names_view(m1.names@)[0]);
                }
            }
        } else {
            let _ = self.delete_row(0);
            proof {
                assert(self.names() == m1.names());
                assert(m1.name(0) == v);
                assert forall|i: int| 0 <= i < self.spec_rows() implies #[trigger] self.entry(i, 0) == 0 by {
                    assert(self.entry(i, 0) == m1.entry(i + 1, 0));
                }
            }
        }
        let ghost m2 = *self;
        self.delete_empty_colums();
        proof {
            assert forall|j: int| 0 <= j < self.spec_cols() implies m0.names().contains(#[trigger] self.name(j)) by {
                assert(m2.names().contains(self.name(j)));
                let c = choose|c: int| 0 <= c < m2.names().len() && m2.names()[c] == self.name(j);
                assert(m2.names()[c] == m2.name(c));
                if kept_as_column {
                    assert(m2.names()[c] == m1.names()[c + 1]);
                    assert(m1.names()[c + 1] == m1.name(c + 1));
                } else {
                    assert(m1.names()[c] == m1.name(c));
                }
            }
            assert forall|k: int| 0 <= k < self.names().len() implies self.names()[k] != v by {
                assert(self.names()[k] == self.name(k));
                assert(m2.names().contains(self.name(k)));
                let c = choose|c: int| 0 <= c < m2.names().len() && m2.names()[c] == self.name(k);
                assert(m2.names()[c] == m2.name(c));
                if !kept_as_column && self.name(k) == v {
                    if c != 0 {
                        assert(names_view(m1.names@)[c] != names_view(m1.names@)[0]);
                    }
                    assert forall|i: int| 0 <= i < self.spec_rows() implies #[trigger] self.entry(i, k) == 0 by {
                        assert(self.entry(i, k) == m2.entry(i, 0));
                    }
                    assert(self.is_zero_column(k));
                }
            }
        }
        Ok(())
    }

    /// Removes, one by one, the variables that have no S-box companion (no
    /// other name holds theirs and theirs holds no other).
    pub fn delete_alone_variables(&mut self) -> (r: Result<(), MatrixError>)
        requires
            old(self).wf(),
        ensures
            final(self).wf(),
            final(self).spec_rows() <= old(self).spec_rows(),
            final(self).spec_cols() <= old(self).spec_cols(),
            Matrix::names_within(old(self), final(self)),
            r is Ok ==> forall|j: int| 0 <= j < final(self).spec_cols() ==> has_companion(old(self).names(), #[trigger] final(self).name(j)),
            final(self).spec_poly() == old(self).spec_poly(),
            match r {
                Ok(()) => true,
                Err(MatrixError::NotInvertible { .. }) => old(self).spec_poly() != DEFAULT_POLY,
                Err(MatrixError::ConsistencyViolation) => final(self).spec_rows() == 0,
                Err(MatrixError::Singular { .. }) => exists|j: int| 0 <= j < final(self).spec_cols() && #[trigger] final(self).is_zero_column(j)
                    && !has_companion(old(self).names(), final(self).name(j)),
                Err(_) => false,
            },
    {
        let names = self.get_all_variables();
        let ghost on = old(self).names();
        let pairs = get_variable_if_sboxed(&names);
        let mut paired: Vec<String> = Vec::new();
        let mut k: usize = 0;
        while k < pairs.len()
            invariant
                k <= pairs@.len(),
                names_view(names@) == on,
                forall|a: int|
                    0 <= a < pairs@.len() ==> contains_text((#[trigger] pairs@[a]).1@, pairs@[a].0@) && pairs@[a].1@ != pairs@[a].0@
                        && has_name(names@, pairs@[a].0@) && has_name(names@, pairs@[a].1@),
                forall|n: Seq<char>| has_name(paired@, n) ==> #[trigger] has_companion(on, n),
                forall|a: int| 0 <= a < k ==> has_name(paired@, (#[trigger] pairs@[a]).0@) && has_name(paired@, pairs@[a].1@),
            decreases pairs@.len() - k,
        {
            let ghost q0 = paired@;
            let ghost pa = pairs@[k as int];
            paired.push(pairs[k].0.clone());
            paired.push(pairs[k].1.clone());
            proof {
                let i1 = choose|i: int| 0 <= i < names@.len() && #[trigger] names@[i]@ == pa.1@;
                let i0 = choose|i: int| 0 <= i < names@.len() && #[trigger] names@[i]@ == pa.0@;
                assert(on[i1] == pa.1@ && on[i0] == pa.0@);
                assert(has_companion(on, pa.0@));
                assert(has_companion(on, pa.1@));
                assert forall|n: Seq<char>| has_name(paired@, n) implies #[trigger] has_companion(on, n) by {
                    let a = choose|a: int| 0 <= a < paired@.len() && #[trigger] paired@[a]@ == n;
                    if a < q0.len() {
                        assert(paired@[a] == q0[a]);
                        assert(has_name(q0, n));
                    }
                }
                assert(paired@[paired@.len() - 2]@ == pa.0@);
                assert(paired@[paired@.len() - 1]@ == pa.1@);
                assert forall|a: int| 0 <= a < k + 1 implies has_name(paired@, (#[trigger] pairs@[a]).0@) && has_name(paired@, pairs@[a].1@) by {
                    if a < k {
                        let b0 = choose|b: int| 0 <= b < q0.len() && #[trigger] q0[b]@ == pairs@[a].0@;
                        let b1 = choose|b: int| 0 <= b < q0.len() && #[trigger] q0[b]@ == pairs@[a].1@;
                        assert(paired@[b0] == q0[b0]);
                        assert(paired@[b1] == q0[b1]);
                    }
                }
            }
            k = k + 1;
        }
        let mut alone: Vec<String> = Vec::new();
        let mut j: usize = 0;
        while j < names.len()
            invariant
                j <= names@.len(),
                names_view(names@) == on,
                forall|n: Seq<char>| has_name(paired@, n) ==> #[trigger] has_companion(on, n),
                forall|a: int| 0 <= a < j && !has_companion(on, #[trigger] names@[a]@) ==> has_name(alone@, names@[a]@),
                forall|a: int| 0 <= a < alone@.len() ==> !has_companion(on, #[trigger] alone@[a]@),
                forall|a: int| 0 <= a < pairs@.len() ==> has_name(paired@, (#[trigger] pairs@[a]).0@) && has_name(paired@, pairs@[a].1@),
                forall|a: int, b: int|
                    0 <= a < names@.len() && 0 <= b < names@.len() && contains_text(
                        #[trigger] names@[b]@,
                        #[trigger] names@[a]@,
                    ) && names@[b]@ != names@[a]@ ==> exists|k2: int|
                        0 <= k2 < pairs@.len() && pairs@[k2].0@ == names@[a]@ && pairs@[k2].1@ == names@[b]@,
            decreases names@.len() - j,
        {
            let ghost al0 = alone@;
            if !contains_name(&paired, &names[j]) {
                proof {
                    let n = names@[j as int]@;
                    if has_companion(on, n) {
                        let q = choose|q: int| 0 <= q < on.len() && on[q] != n && (contains_text(on[q], n) || contains_text(n, on[q]));
                        assert(on[q] == names@[q]@);
                        assert(on[j as int] == n);
                        if contains_text(names@[q]@, names@[j as int]@) {
                            let k2 = choose|k2: int| 0 <= k2 < pairs@.len() && pairs@[k2].0@ == names@[j as int]@ && pairs@[k2].1@ == names@[q]@;
                            assert(has_name(paired@, pairs@[k2].0@));
                        } else {
                            assert(contains_text(names@[j as int]@, names@[q]@));
                            let k2 = choose|k2: int| 0 <= k2 < pairs@.len() && pairs@[k2].0@ == names@[q]@ && pairs@[k2].1@ == names@[j as int]@;
                            assert(has_name(paired@, pairs@[k2].1@));
                        }
                    }
                }
                alone.push(names[j].clone());
                proof {
                    assert(alone@[alone@.len() - 1]@ == names@[j as int]@);
                    assert forall|a: int| 0 <= a < alone@.len() implies !has_companion(on, #[trigger] alone@[a]@) by {
                        if a < al0.len() {
                            assert(alone@[a] == al0[a]);
                        }
                    }
                }
            }
            proof {
                assert forall|a: int| 0 <= a < j + 1 && !has_companion(on, #[trigger] names@[a]@) implies has_name(alone@, names@[a]@) by {
                    if a < j {
                        let b = choose|b: int| 0 <= b < al0.len() && #[trigger] al0[b]@ == names@[a]@;
                        assert(alone@[b] == al0[b]);
                    } else {
                        assert(alone@[alone@.len() - 1]@ == names@[j as int]@);
                    }
                }
            }
            j = j + 1;
        }
        proof {
            assert forall|n: Seq<char>| on.contains(n) && !has_companion(on, n) implies has_name(alone@, n) by {
                let a = choose|a: int| 0 <= a < on.len() && on[a] == n;
                assert(names@[a]@ == on[a]);
                assert(!has_companion(on, names@[a]@));
            }
            assert forall|jj: int| 0 <= jj < self.spec_cols() implies on.contains(#[trigger] self.name(jj)) by {
                assert(on[jj] == self.name(jj));
            }
        }
        while alone.len() > 0
            invariant
                self.wf(),
                old(self).wf(),
                on == old(self).names(),
                self.spec_rows() <= old(self).spec_rows(),
                self.spec_cols() <= old(self).spec_cols(),
                Matrix::names_within(old(self), self),
                forall|n: Seq<char>| on.contains(n) && !has_companion(on, n) ==> has_name(alone@, n) || !#[trigger] self.names().contains(n),
                forall|a: int| 0 <= a < alone@.len() ==> !has_companion(on, #[trigger] alone@[a]@),
                self.spec_poly() == old(self).spec_poly(),
            decreases alone@.len(),
        {
            let ghost al0 = alone@;
            let ghost before = *self;
            let x = alone.pop().unwrap();
            if self.has_column(&x) {
                match self.remove_variable(x) {
                    Ok(()) => {},
                    Err(e) => {
                        proof {
                            Matrix::lemma_names_within_trans(old(self), &before, self);
                            assert(!has_companion(on, al0[al0.len() - 1]@));
                            if e is Singular {
                                assert(self.is_zero_column(0));
                            }
                        }
                        return Err(e);
                    },
                }
            }
            proof {
                if *self == before {
                    Matrix::lemma_names_within_refl(self);
                }
                Matrix::lemma_names_within_trans(old(self), &before, self);
                assert forall|a: int| 0 <= a < alone@.len() implies !has_companion(on, #[trigger] alone@[a]@) by {
                    assert(alone@[a] == al0[a]);
                }
                assert forall|n: Seq<char>| on.contains(n) && !has_companion(on, n) implies has_name(alone@, n) || !#[trigger] self.names().contains(n) by {
                    if self.names().contains(n) {
                        let t = choose|t: int| 0 <= t < self.names().len() && self.names()[t] == n;
                        assert(self.names()[t] == self.name(t));
                        assert(before.names().contains(n));
                        assert(has_name(al0, n));
                        let b = choose|b: int| 0 <= b < al0.len() && #[trigger] al0[b]@ == n;
                        if b < al0.len() - 1 {
                            assert(alone@[b] == al0[b]);
                        }
                    }
                }
            }
        }
        proof {
            assert forall|jj: int| 0 <= jj < self.spec_cols() implies has_companion(on, #[trigger] self.name(jj)) by {
                assert(self.names()[jj] == self.name(jj));
                assert(self.names().contains(self.name(jj)));
            }
        }
        Ok(())
    }

    /// Every name of `new` is a name of `old`.
    pub open spec fn names_within(old: &Matrix, new: &Matrix) -> bool {
        forall|j: int| 0 <= j < new.spec_cols() ==> old.names().contains(#[trigger] new.name(j))
    }

    pub proof fn lemma_names_within_refl(a: &Matrix)
        requires
            a.wf(),
        ensures
            Matrix::names_within(a, a),
    {
        assert forall|j: int| 0 <= j < a.spec_cols() implies a.names().contains(#[trigger] a.name(j)) by {
            assert(a.names()[j] == a.name(j));
        }
    }

    pub proof fn lemma_names_within_trans(a: &Matrix, b: &Matrix, c: &Matrix)
        requires
            b.wf(),
            Matrix::names_within(a, b),
            Matrix::names_within(b, c),
        ensures
            Matrix::names_within(a, c),
    {
        assert forall|j: int| 0 <= j < c.spec_cols() implies a.names().contains(#[trigger] c.name(j)) by {
            let k = choose|k: int| 0 <= k < b.names().len() && b.names()[k] == c.name(j);
            assert(b.names()[k] == b.name(k));
        }
    }

    /// Shrinks the system before the search: removes the variables without
    /// S-box companion, then, while the last remaining pair of a variable
    /// and its image spans a single dimension, drops the first row, with
    /// the rows and columns left all zero.
    pub fn drop_linear_variables(&mut self) -> (r: Result<(), MatrixError>)
        requires
            old(self).wf(),
        ensures
            final(self).wf(),
            final(self).spec_rows() <= old(self).spec_rows(),
            final(self).spec_cols() <= old(self).spec_cols(),
            Matrix::names_within(old(self), final(self)),
            r is Ok ==> forall|j: int| 0 <= j < final(self).spec_cols() ==> has_companion(old(self).names(), #[trigger] final(self).name(j)),
            r is Ok ==> forall|i: int| 0 <= i < final(self).spec_rows() ==> !#[trigger] final(self).is_zero_row(i),
            r is Ok ==> forall|j: int| 0 <= j < final(self).spec_cols() ==> !#[trigger] final(self).is_zero_column(j),
            final(self).spec_poly() == old(self).spec_poly(),
            match r {
                Ok(()) => true,
                Err(MatrixError::NotInvertible { .. }) => old(self).spec_poly() != DEFAULT_POLY,
                Err(MatrixError::ConsistencyViolation) => final(self).spec_rows() == 0,
                Err(MatrixError::Singular { .. }) => exists|j: int| 0 <= j < final(self).spec_cols() && #[trigger] final(self).is_zero_column(j)
                    && !has_companion(old(self).names(), final(self).name(j)),
                Err(_) => false,
            },
    {
        if let Err(e) = self.delete_alone_variables() {
            return Err(e);
        }
        let names = self.get_all_variables();
        let mut sboxed = get_variable_if_sboxed(&names);
        loop
            invariant
                self.wf(),
                old(self).wf(),
                self.spec_rows() <= old(self).spec_rows(),
                self.spec_cols() <= old(self).spec_cols(),
                Matrix::names_within(old(self), self),
                self.spec_poly() == old(self).spec_poly(),
                forall|j: int| 0 <= j < self.spec_cols() ==> has_companion(old(self).names(), #[trigger] self.name(j)),
                forall|k: int| 0 <= k < sboxed@.len() ==> (#[trigger] sboxed@[k]).1@ != sboxed@[k].0@,
            decreases sboxed@.len(),
        {
            let ghost m0 = *self;
            self.delete_empty_rows();
            let ghost m1 = *self;
            self.delete_empty_colums();
            proof {
                Matrix::lemma_names_within_refl(&m1);
                assert(Matrix::names_within(&m0, &m1)) by {
                    assert forall|j: int| 0 <= j < m1.spec_cols() implies m0.names().contains(#[trigger] m1.name(j)) by {
                        assert(m1.names()[j] == m1.name(j));
                    }
                }
                Matrix::lemma_names_within_trans(&m0, &m1, self);
                Matrix::lemma_names_within_trans(old(self), &m0, self);
                assert forall|j: int| 0 <= j < self.spec_cols() implies has_companion(old(self).names(), #[trigger] self.name(j)) by {
                    let k = choose|k: int| 0 <= k < m0.names().len() && m0.names()[k] == self.name(j);
                    assert(m0.names()[k] == m0.name(k));
                }
                assert forall|i: int| 0 <= i < self.spec_rows() implies !#[trigger] self.is_zero_row(i) by {
                    assert(!m1.is_zero_row(i));
                    let c = choose|c: int| 0 <= c < m1.spec_cols() && m1.entry(i, c) != 0;
                    assert(!m1.is_zero_column(c));
                    assert(self.names().contains(m1.name(c)));
                    let t = choose|t: int| 0 <= t < self.names().len() && self.names()[t] == m1.name(c);
                    assert(self.names()[t] == self.name(t));
                    assert(self.entry(i, t) == m1.entry(i, c));
                }
            }
            match sboxed.pop() {
                Some((x, sx)) => {
                    if !self.has_column(&x) || !self.has_column(&sx) {
                        return Ok(());
                    }
                    let mut pair: Vec<String> = Vec::new();
                    pair.push(x);
                    pair.push(sx);
                    assert(names_view(pair@)[0] != names_view(pair@)[1]);
                    assert(distinct(names_view(pair@)));
                    assert forall|k: int| 0 <= k < pair@.len() implies self.names().contains(#[trigger] pair@[k]@) by {}
                    let mut sub = self.get_matrix_generated_by(&pair);
                    match sub.rank() {
                        Ok(1) => {
                            if self.rows == 0 {
                                return Ok(());
                            }
                            let ghost m2 = *self;
                            let _ = self.delete_row(0);
                            proof {
                                assert(self.names() == m2.names());
                                assert forall|j: int| 0 <= j < self.spec_cols() implies old(self).names().contains(#[trigger] self.name(j)) by {
                                    assert(self.names()[j] == self.name(j));
                                    assert(m2.names()[j] == m2.name(j));
                                }
                                assert forall|j: int| 0 <= j < self.spec_cols() implies has_companion(old(self).names(), #[trigger] self.name(j)) by {
                                    assert(self.names()[j] == self.name(j));
                                    assert(m2.names()[j] == m2.name(j));
                                }
                            }
                        },
                        Ok(_) => {
                            return Ok(());
                        },
                        Err(e) => {
                            return Err(e);
                        },
                    }
                },
                None => {
                    return Ok(());
                },
            }
        }
    }
}

/// The number of binary digits of `p`.
pub open spec fn bit_len(p: nat) -> nat
    decreases p,
{
    if p == 0 {
        0
    } else {
        1 + bit_len(p / 2)
    }
}

/// Two to the power `n`.
pub open spec fn two_pow(n: nat) -> nat
    decreases n,
{
    if n == 0 {
        1
    } else {
        2 * two_pow((n - 1) as nat)
    }
}

/// `v` is a coefficient of the field of modulus `poly`: a byte with no more
/// binary digits than the modulus.
pub open spec fn fits_modulus(v: u32, poly: u16) -> bool {
    v < 256 && (v as nat) < two_pow(bit_len(poly as nat))
}

/// One more than the largest coefficient that `poly` allows, capped at 256.
fn coefficient_limit(poly: u16) -> (r: u32)
    ensures
        forall|v: u32| (v < r) <==> fits_modulus(v, poly),
{
    let mut q: u16 = poly;
    let mut limit: u32 = 1;
    let ghost b: nat = 0;
    while q > 0
        invariant
            bit_len(poly as nat) == b + bit_len(q as nat),
            limit == (if two_pow(b) < 512 { two_pow(b) } else { 512 }),
        decreases q,
    {
        proof {
            b = b + 1;
            assert(two_pow(b) == 2 * two_pow((b - 1) as nat));
        }
        q = q / 2;
        if limit < 256 {
            limit = limit * 2;
        } else {
            limit = 512;
        }
    }
    assert(bit_len(0) == 0);
    if limit > 256 {
        256
    } else {
        limit
    }
}

impl Matrix {
    /// A matrix over the field of modulus `polynomial`, holding `data` row
    /// by row, with `names[j]` naming column `j`. Fails with
    /// `ShapeMismatch` when the rows differ in length or the names do not
    /// name the columns once each, and with `InvalidValue` when a
    /// coefficient is not an element of the field.
    pub fn new_from_vec(data: Vec<Vec<u32>>, names: Vec<String>, polynomial: u16) -> (r: Result<Matrix, MatrixError>)
        ensures
            match r {
                Ok(m) => {
                    &&& m.wf()
                    &&& m.spec_rows() == data@.len()
                    &&& m.spec_cols() == names@.len()
                    &&& m.spec_poly() == polynomial
                    &&& m.names() == names_view(names@)
                    &&& forall|i: int, j: int| 0 <= i < m.spec_rows() && 0 <= j < m.spec_cols() ==> #[trigger] m.entry(i, j) as u32 == data@[i]@[j]
                },
                Err(MatrixError::ShapeMismatch) => !distinct(names_view(names@)) || exists|i: int| 0 <= i < data@.len() && #[trigger] data@[i]@.len() != names@.len(),
                Err(MatrixError::InvalidValue) => exists|i: int, j: int| 0 <= i < data@.len() && 0 <= j < data@[i]@.len() && !fits_modulus(#[trigger] data@[i]@[j], polynomial),
                Err(_) => false,
            },
    {
        let cols = names.len();
        if !all_distinct(&names) {
            return Err(MatrixError::ShapeMismatch);
        }
        let limit = coefficient_limit(polynomial);
        let rows = data.len();
        let mut rows_out: Vec<Vec<u8>> = Vec::new();
        let mut i: usize = 0;
        while i < rows
            invariant
                rows == data@.len(),
                cols == names@.len(),
                forall|v: u32| (v < limit) <==> fits_modulus(v, polynomial),
                i <= rows,
                rows_out@.len() == i,
                forall|a: int| 0 <= a < i ==> #[trigger] rows_out@[a]@.len() == cols,
                forall|a: int, c: int| 0 <= a < i && 0 <= c < cols ==> #[trigger] rows_out@[a]@[c] as u32 == data@[a]@[c],
            decreases rows - i,
        {
            if data[i].len() != cols {
                return Err(MatrixError::ShapeMismatch);
            }
            let mut row: Vec<u8> = Vec::new();
            let mut j: usize = 0;
            while j < cols
                invariant
                    i < data@.len(),
                    data@[i as int]@.len() == cols,
                    forall|v: u32| (v < limit) <==> fits_modulus(v, polynomial),
                    j <= cols,
                    row@.len() == j,
                    forall|c: int| 0 <= c < j ==> #[trigger] row@[c] as u32 == data@[i as int]@[c],
                decreases cols - j,
            {
                let v = data[i][j];
                if v >= limit {
                    assert(!fits_modulus(data@[i as int]@[j as int], polynomial));
                    return Err(MatrixError::InvalidValue);
                }
                assert(fits_modulus(v, polynomial));
                assert(v < 256);
                row.push(v as u8);
                j = j + 1;
            }
            rows_out.push(row);
            i = i + 1;
        }
        let m = Matrix { names, rows, cols, data: rows_out, poly: polynomial };
        assert(m.names() == names_view(m.names@));
        Ok(m)
    }
}

/// Some index below `n` is sent to `k` by `p`.
pub open spec fn reached(p: Seq<int>, n: int, k: int) -> bool {
    exists|j: int| 0 <= j < n && p[j] == k
}

/// A permutation of `0..n` reaches every index.
pub proof fn lemma_perm_onto(p: Seq<int>, n: int)
    requires
        is_perm(p, n),
    ensures
        forall|k: int| 0 <= k < n ==> #[trigger] reached(p, n, k),
{
    let d = vstd::set_lib::set_int_range(0, n);
    let f = |j: int| p[j];
    vstd::set_lib::lemma_int_range(0, n);
    assert(vstd::relations::injective_on(f, d));
    let img = d.map(f);
    vstd::set_lib::lemma_map_size(d, img, f);
    assert forall|w: int| img.contains(w) implies d.contains(w) by {
        let j = choose|j: int| d.contains(j) && f(j) == w;
    }
    vstd::set_lib::lemma_subset_equality(img, d);
    assert forall|k: int| 0 <= k < n implies #[trigger] reached(p, n, k) by {
        assert(d.contains(k));
        assert(img.contains(k));
    }
}

impl Matrix {
    /// `a` and `b` have the same column names, in whatever order.
    pub open spec fn same_names(a: &Matrix, b: &Matrix) -> bool {
        forall|n: Seq<char>| #[trigger] a.names().contains(n) <==> b.names().contains(n)
    }

    /// The column names of a well-formed matrix are distinct.
    pub proof fn lemma_names_distinct(&self)
        requires
            self.wf(),
        ensures
            distinct(self.names()),
            self.names().len() == self.spec_cols(),
    {
    }

    /// Reordering the columns keeps the set of names.
    pub proof fn lemma_permuted_same_names(a: &Matrix, b: &Matrix, p: Seq<int>)
        requires
            a.wf(),
            b.wf(),
            b.spec_cols() == a.spec_cols(),
            is_perm(p, a.spec_cols() as int),
            forall|j: int| 0 <= j < a.spec_cols() ==> #[trigger] b.name(j) == a.name(p[j]),
        ensures
            Matrix::same_names(a, b),
    {
        lemma_perm_onto(p, a.spec_cols() as int);
        assert forall|n: Seq<char>| #[trigger] a.names().contains(n) <==> b.names().contains(n) by {
            if a.names().contains(n) {
                let k = choose|k: int| 0 <= k < a.names().len() && a.names()[k] == n;
                assert(reached(p, a.spec_cols() as int, k));
                let j = choose|j: int| 0 <= j < a.spec_cols() && p[j] == k;
                assert(b.names()[j] == b.name(j));
                assert(a.names()[k] == a.name(k));
            }
            if b.names().contains(n) {
                let j = choose|j: int| 0 <= j < b.names().len() && b.names()[j] == n;
                assert(b.names()[j] == b.name(j));
                assert(a.names()[p[j]] == a.name(p[j]));
            }
        }
    }
}

/// A unit first column holds exactly one entry equal to one.
proof fn lemma_unit_column_ones(m: &Matrix, i: int)
    requires
        m.wf(),
        1 <= i <= m.spec_rows(),
        m.spec_cols() >= 1,
        m.reduced(1),
    ensures
        m.ones_in_column(0, i) == 1,
    decreases i,
{
    if i > 1 {
        lemma_unit_column_ones(m, i - 1);
        assert(m.entry(i - 1, 0) == 0);
    } else {
        assert(m.entry(0, 0) == 1);
        assert(m.ones_in_column(0, 0) == 0);
    }
}

/// Some other name of `names` holds `n`, or is held in it: `n` has an
/// S-box companion.
pub open spec fn has_companion(names: Seq<Seq<char>>, n: Seq<char>) -> bool {
    exists|k: int| 0 <= k < names.len() && names[k] != n && (contains_text(names[k], n) || contains_text(n, names[k]))
}

impl Matrix {
    /// The rows, as sequences of values.
    pub closed spec fn rows_view(&self) -> Seq<Seq<u8>> {
        self.data@.map_values(|r: Vec<u8>| r@)
    }

    /// `b` is obtained from `a` by elementary row operations: the same
    /// shape, names and field, and the same row space.
    pub open spec fn row_equivalent(a: &Matrix, b: &Matrix) -> bool {
        &&& b.spec_rows() == a.spec_rows()
        &&& b.spec_cols() == a.spec_cols()
        &&& b.spec_poly() == a.spec_poly()
        &&& b.names() == a.names()
        &&& exists|ops: Seq<RowOp>| #[trigger] ops_valid(a.spec_rows(), ops, low_byte(a.spec_poly()))
            && apply_ops(a.rows_view(), ops, low_byte(a.spec_poly())) == b.rows_view()
    }

    /// `b` is `a` with its columns reordered, then transformed by elementary
    /// row operations.
    pub open spec fn equivalent_up_to_columns(a: &Matrix, b: &Matrix) -> bool {
        exists|m: Matrix| Matrix::columns_permuted(a, &m) && #[trigger] Matrix::row_equivalent(&m, b)
    }

    pub proof fn lemma_row_equivalent_refl(a: &Matrix)
        ensures
            Matrix::row_equivalent(a, a),
    {
        let ops = Seq::<RowOp>::empty();
        assert(ops_valid(a.spec_rows(), ops, low_byte(a.spec_poly())));
    }

    pub proof fn lemma_row_equivalent_trans(a: &Matrix, b: &Matrix, c: &Matrix)
        requires
            Matrix::row_equivalent(a, b),
            Matrix::row_equivalent(b, c),
        ensures
            Matrix::row_equivalent(a, c),
    {
        let low = low_byte(a.spec_poly());
        let o1 = choose|ops: Seq<RowOp>| #[trigger] ops_valid(a.spec_rows(), ops, low) && apply_ops(a.rows_view(), ops, low) == b.rows_view();
        let o2 = choose|ops: Seq<RowOp>| #[trigger] ops_valid(b.spec_rows(), ops, low) && apply_ops(b.rows_view(), ops, low) == c.rows_view();
        lemma_apply_ops_concat(a.rows_view(), o1, o2, low);
        assert forall|i: int| 0 <= i < (o1 + o2).len() implies op_valid(a.spec_rows(), #[trigger] (o1 + o2)[i], low) by {
            if i < o1.len() {
                assert((o1 + o2)[i] == o1[i]);
            } else {
                assert((o1 + o2)[i] == o2[i - o1.len()]);
            }
        }
        assert(ops_valid(a.spec_rows(), o1 + o2, low));
    }

    /// One more elementary operation keeps row equivalence.
    proof fn lemma_row_equivalent_step(a: &Matrix, b: &Matrix, ops: Seq<RowOp>, op: RowOp)
        requires
            b.spec_rows() == a.spec_rows(),
            ops_valid(a.spec_rows(), ops, low_byte(a.spec_poly())),
            op_valid(a.spec_rows(), op, low_byte(a.spec_poly())),
        ensures
            ops_valid(a.spec_rows(), ops.push(op), low_byte(a.spec_poly())),
            apply_ops(a.rows_view(), ops.push(op), low_byte(a.spec_poly())) == apply_op(apply_ops(a.rows_view(), ops, low_byte(a.spec_poly())), op, low_byte(a.spec_poly())),
    {
        assert(ops.push(op).drop_last() =~= ops);
        assert forall|i: int| 0 <= i < ops.push(op).len() implies op_valid(a.spec_rows(), #[trigger] ops.push(op)[i], low_byte(a.spec_poly())) by {
            if i < ops.len() {
                assert(ops.push(op)[i] == ops[i]);
            }
        }
    }
}

impl Matrix {
    /// Reorders the columns, names included, so that the names come in
    /// lexicographic order.
    pub fn sort_columns(&mut self)
        requires
            old(self).wf(),
        ensures
            final(self).wf(),
            Matrix::columns_permuted(old(self), final(self)),
            forall|a: int, b: int| 0 <= a < b < final(self).spec_cols() ==> lex_le(#[trigger] final(self).name(a), #[trigger] final(self).name(b)),
    {
        let mut rest = self.get_all_variables();
        let mut sorted: Vec<String> = Vec::new();
        proof {
            self.lemma_names_distinct();
            assert forall|q: int| 0 <= q < rest@.len() implies self.names().contains(#[trigger] rest@[q]@) by {
                assert(names_view(rest@)[q] == rest@[q]@);
            }
        }
        while rest.len() > 0
            invariant
                self.wf(),
                *self == *old(self),
                sorted@.len() + rest@.len() == self.spec_cols(),
                distinct(names_view(sorted@)),
                distinct(names_view(rest@)),
                forall|a: int, q: int| 0 <= a < sorted@.len() && 0 <= q < rest@.len() ==> #[trigger] sorted@[a]@ != #[trigger] rest@[q]@,
                forall|a: int| 0 <= a < sorted@.len() ==> self.names().contains(#[trigger] sorted@[a]@),
                forall|q: int| 0 <= q < rest@.len() ==> self.names().contains(#[trigger] rest@[q]@),
                forall|a: int, b: int| 0 <= a < b < sorted@.len() ==> lex_le(#[trigger] sorted@[a]@, #[trigger] sorted@[b]@),
                forall|a: int, q: int| 0 <= a < sorted@.len() && 0 <= q < rest@.len() ==> lex_le(#[trigger] sorted@[a]@, #[trigger] rest@[q]@),
            decreases rest@.len(),
        {
            let mut m: usize = 0;
            let mut i: usize = 1;
            proof {
                lemma_lex_total(rest@[0]@, rest@[0]@, 0);
            }
            while i < rest.len()
                invariant
                    0 <= m < i <= rest@.len(),
                    forall|q: int| 0 <= q < i ==> lex_le(rest@[m as int]@, #[trigger] rest@[q]@),
                decreases rest@.len() - i,
            {
                proof {
                    lemma_lex_total(rest@[m as int]@, rest@[i as int]@, 0);
                }
                if !lex_le_names(&rest[m], &rest[i]) {
                    proof {
                        assert forall|q: int| 0 <= q < i + 1 implies lex_le(rest@[i as int]@, #[trigger] rest@[q]@) by {
                            if q < i {
                                lemma_lex_trans(rest@[i as int]@, rest@[m as int]@, rest@[q]@, 0);
                            } else {
                                lemma_lex_total(rest@[i as int]@, rest@[i as int]@, 0);
                            }
                        }
                    }
                    m = i;
                }
                i = i + 1;
            }
            let ghost r0 = rest@;
            let ghost s0 = sorted@;
            let x = rest.remove(m);
            sorted.push(x);
            proof {
                assert(sorted@[s0.len() as int]@ == r0[m as int]@);
                assert forall|q: int| 0 <= q < rest@.len() implies rest@[q] == r0[skip_index(q, m as int)] by {}
                assert forall|a: int, b: int| 0 <= a < sorted@.len() && 0 <= b < sorted@.len() && a != b implies names_view(sorted@)[a] != names_view(sorted@)[b] by {
                    if a < s0.len() && b < s0.len() {
                        assert(names_view(s0)[a] != names_view(s0)[b]);
                    } else if a < s0.len() {
                        assert(s0[a]@ != r0[m as int]@);
                    } else if b < s0.len() {
                        assert(s0[b]@ != r0[m as int]@);
                    }
                }
                assert forall|a: int, b: int| 0 <= a < rest@.len() && 0 <= b < rest@.len() && a != b implies names_view(rest@)[a] != names_view(rest@)[b] by {
                    assert(names_view(r0)[skip_index(a, m as int)] != names_view(r0)[skip_index(b, m as int)]);
                }
                assert forall|a: int, q: int| 0 <= a < sorted@.len() && 0 <= q < rest@.len() implies #[trigger] sorted@[a]@ != #[trigger] rest@[q]@ by {
                    if a < s0.len() {
                        assert(s0[a]@ != r0[skip_index(q, m as int)]@);
                    } else {
                        assert(names_view(r0)[m as int] != names_view(r0)[skip_index(q, m as int)]);
                    }
                }
                assert forall|a: int| 0 <= a < sorted@.len() implies self.names().contains(#[trigger] sorted@[a]@) by {
                    if a < s0.len() {
                        assert(sorted@[a] == s0[a]);
                    }
                }
                assert forall|q: int| 0 <= q < rest@.len() implies self.names().contains(#[trigger] rest@[q]@) by {
                    assert(self.names().contains(r0[skip_index(q, m as int)]@));
                }
                assert forall|a: int, b: int| 0 <= a < b < sorted@.len() implies lex_le(#[trigger] sorted@[a]@, #[trigger] sorted@[b]@) by {
                    if b < s0.len() {
                        assert(sorted@[a] == s0[a] && sorted@[b] == s0[b]);
                    } else {
                        assert(sorted@[a] == s0[a]);
                        assert(lex_le(s0[a]@, r0[m as int]@));
                    }
                }
                assert forall|a: int, q: int| 0 <= a < sorted@.len() && 0 <= q < rest@.len() implies lex_le(#[trigger] sorted@[a]@, #[trigger] rest@[q]@) by {
                    if a < s0.len() {
                        assert(sorted@[a] == s0[a]);
                        assert(lex_le(s0[a]@, r0[skip_index(q, m as int)]@));
                    } else {
                        assert(lex_le(r0[m as int]@, r0[skip_index(q, m as int)]@));
                    }
                }
            }
        }
        let ghost sv = sorted@;
        self.sort_left(sorted);
        proof {
            assert forall|a: int, b: int| 0 <= a < b < self.spec_cols() implies lex_le(#[trigger] self.name(a), #[trigger] self.name(b)) by {
                assert(self.name(a) == sv[a]@ && self.name(b) == sv[b]@);
            }
        }
    }
}

} // verus!
