//! Sparse matrices in coordinate form: one triplet per nonzero entry.
use vstd::prelude::*;

use crate::matrix::{decimal, decimal_digits};

verus! {

/// The first index from `from` on where `rows` holds `i` and `cols` holds
/// `j`.
pub open spec fn first_at(rows: Seq<usize>, cols: Seq<usize>, i: int, j: int, from: int) -> Option<int>
    decreases rows.len() - from,
{
    if from < 0 || from >= rows.len() {
        None
    } else if rows[from] == i && cols[from] == j {
        Some(from)
    } else {
        first_at(rows, cols, i, j, from + 1)
    }
}

/// The products of the triplet `t` with the triplets of `b` in the row
/// that matches its column, in the order of `b`.
pub open spec fn matches_of(t: (usize, usize, usize), b: Seq<(usize, usize, usize)>) -> Seq<(usize, usize, usize)>
    decreases b.len(),
{
    if b.len() == 0 {
        Seq::empty()
    } else {
        matches_of(t, b.drop_last()) + if b.last().0 == t.1 {
            seq![(t.0, b.last().1, (t.2 * b.last().2) as usize)]
        } else {
            Seq::empty()
        }
    }
}

/// The triplets of the product of `a` and `b`: for each triplet of `a` in
/// order, its products with the matching triplets of `b`.
pub open spec fn product(a: Seq<(usize, usize, usize)>, b: Seq<(usize, usize, usize)>) -> Seq<(usize, usize, usize)>
    decreases a.len(),
{
    if a.len() == 0 {
        Seq::empty()
    } else {
        product(a.drop_last(), b) + matches_of(a.last(), b)
    }
}

/// The sum of the values of the triplets of `ts`.
pub open spec fn total(ts: Seq<(usize, usize, usize)>) -> nat
    decreases ts.len(),
{
    if ts.len() == 0 {
        0
    } else {
        total(ts.drop_last()) + ts.last().2 as nat
    }
}

/// The first index from `from` on of a triplet of `ts` at row `r`, column `c`.
pub open spec fn first_pos(ts: Seq<(usize, usize, usize)>, r: usize, c: usize, from: int) -> Option<int>
    decreases ts.len() - from,
{
    if from < 0 || from >= ts.len() {
        None
    } else if ts[from].0 == r && ts[from].1 == c {
        Some(from)
    } else {
        first_pos(ts, r, c, from + 1)
    }
}

/// `ts` with the value of `t` added to the first triplet at its place, or
/// with `t` appended when there is none.
pub open spec fn add_one(ts: Seq<(usize, usize, usize)>, t: (usize, usize, usize)) -> Seq<(usize, usize, usize)> {
    match first_pos(ts, t.0, t.1, 0) {
        Some(k) => ts.update(k, (t.0, t.1, (ts[k].2 + t.2) as usize)),
        None => ts.push(t),
    }
}

/// The triplets of the sum: those of `a`, then each triplet of `b` in turn
/// added in.
pub open spec fn sum_triplets(a: Seq<(usize, usize, usize)>, b: Seq<(usize, usize, usize)>) -> Seq<(usize, usize, usize)>
    decreases b.len(),
{
    if b.len() == 0 {
        a
    } else {
        add_one(sum_triplets(a, b.drop_last()), b.last())
    }
}

proof fn lemma_total_update(ts: Seq<(usize, usize, usize)>, k: int, x: (usize, usize, usize))
    requires
        0 <= k < ts.len(),
    ensures
        total(ts.update(k, x)) + ts[k].2 == total(ts) + x.2,
        ts[k].2 <= total(ts),
    decreases ts.len(),
{
    if k < ts.len() - 1 {
        lemma_total_update(ts.drop_last(), k, x);
        assert(ts.update(k, x).drop_last() =~= ts.drop_last().update(k, x));
    } else {
        assert(ts.update(k, x).drop_last() =~= ts.drop_last());
    }
}

proof fn lemma_total_push(ts: Seq<(usize, usize, usize)>, x: (usize, usize, usize))
    ensures
        total(ts.push(x)) == total(ts) + x.2,
{
    assert(ts.push(x).drop_last() =~= ts);
}

/// A sparse matrix of the given shape: entry `k` holds `values[k]` at row
/// `row_indices[k]`, column `col_indices[k]`.
#[derive(Debug)]
pub struct CooMatrix {
    row_indices: Vec<usize>,
    col_indices: Vec<usize>,
    values: Vec<usize>,
    shape: (usize, usize),
}

impl CooMatrix {
    /// The three lists have one entry per stored value, inside the shape.
    pub closed spec fn wf(&self) -> bool {
        &&& self.row_indices@.len() == self.values@.len()
        &&& self.col_indices@.len() == self.values@.len()
        &&& forall|k: int| 0 <= k < self.values@.len() ==> #[trigger] self.row_indices@[k] < self.shape.0
            && self.col_indices@[k] < self.shape.1
    }

    /// The stored triplets `(row, column, value)`, in storage order.
    pub closed spec fn triplets(&self) -> Seq<(usize, usize, usize)> {
        Seq::new(self.values@.len(), |k: int| (self.row_indices@[k], self.col_indices@[k], self.values@[k]))
    }

    pub closed spec fn spec_shape(&self) -> (usize, usize) {
        self.shape
    }

    /// An empty matrix of the given shape.
    pub fn new(shape: (usize, usize)) -> (r: CooMatrix)
        ensures
            r.wf(),
            r.spec_shape() == shape,
            r.triplets().len() == 0,
    {
        CooMatrix { row_indices: Vec::new(), col_indices: Vec::new(), values: Vec::new(), shape }
    }

    /// The nonzero entries of a dense matrix, row by row.
    pub fn from_dense(matrix: &Vec<Vec<usize>>) -> (r: CooMatrix)
        requires
            forall|i: int| 0 <= i < matrix@.len() ==> #[trigger] matrix@[i]@.len() == matrix@[0]@.len(),
        ensures
            r.wf(),
            r.spec_shape().0 == matrix@.len(),
            matrix@.len() > 0 ==> r.spec_shape().1 == matrix@[0]@.len(),
            forall|k: int| 0 <= k < r.triplets().len() ==> (#[trigger] r.triplets()[k]).2 != 0,
            forall|i: int, j: int|
                0 <= i < matrix@.len() && 0 <= j < matrix@[i]@.len() && #[trigger] matrix@[i]@[j] != 0
                    ==> exists|k: int| 0 <= k < r.triplets().len() && r.triplets()[k].0 == i && r.triplets()[k].1 == j,
    {
        let rows = matrix.len();
        let cols: usize = if rows == 0 {
            0
        } else {
            matrix[0].len()
        };
        let mut m = CooMatrix::new((rows, cols));
        let mut i: usize = 0;
        while i < rows
            invariant
                rows == matrix@.len(),
                cols == (if rows == 0 { 0 } else { matrix@[0]@.len() }),
                forall|a: int| 0 <= a < matrix@.len() ==> #[trigger] matrix@[a]@.len() == matrix@[0]@.len(),
                m.shape == (rows, cols),
                i <= rows,
                m.wf(),
                forall|k: int|
                    0 <= k < m.values@.len() ==> #[trigger] m.values@[k] != 0,
                forall|a: int, b: int|
                    0 <= a < i && 0 <= b < cols && #[trigger] matrix@[a]@[b] != 0 ==> exists|k: int|
                        0 <= k < m.values@.len() && m.row_indices@[k] == a && m.col_indices@[k] == b,
            decreases rows - i,
        {
            let mut j: usize = 0;
            while j < cols
                invariant
                    rows == matrix@.len(),
                    i < rows,
                    cols == matrix@[0]@.len(),
                    matrix@[i as int]@.len() == cols,
                    m.shape == (rows, cols),
                    j <= cols,
                    m.wf(),
                    forall|k: int|
                        0 <= k < m.values@.len() ==> #[trigger] m.values@[k] != 0,
                    forall|a: int, b: int|
                        0 <= a < i && 0 <= b < cols && #[trigger] matrix@[a]@[b] != 0 ==> exists|k: int|
                            0 <= k < m.values@.len() && m.row_indices@[k] == a && m.col_indices@[k] == b,
                    forall|b: int|
                        0 <= b < j && #[trigger] matrix@[i as int]@[b] != 0 ==> exists|k: int|
                            0 <= k < m.values@.len() && m.row_indices@[k] == i && m.col_indices@[k] == b,
                decreases cols - j,
            {
                let value = matrix[i][j];
                if value != 0 {
                    let ghost n0 = m.values@.len();
                    let ghost r0 = m.row_indices@;
                    let ghost c0 = m.col_indices@;
                    m.row_indices.push(i);
                    m.col_indices.push(j);
                    m.values.push(value);
                    proof {
                        assert(m.row_indices@[n0 as int] == i && m.col_indices@[n0 as int] == j);
                        assert forall|a: int, b: int| 0 <= a < i && 0 <= b < cols && #[trigger] matrix@[a]@[b] != 0 implies exists|k: int|
                            0 <= k < m.values@.len() && m.row_indices@[k] == a && m.col_indices@[k] == b by {
                            let k = choose|k: int| 0 <= k < n0 && r0[k] == a && c0[k] == b;
                            assert(m.row_indices@[k] == r0[k] && m.col_indices@[k] == c0[k]);
                        }
                        assert forall|b: int| 0 <= b < j + 1 && #[trigger] matrix@[i as int]@[b] != 0 implies exists|k: int|
                            0 <= k < m.values@.len() && m.row_indices@[k] == i && m.col_indices@[k] == b by {
                            if b < j {
                                let k = choose|k: int| 0 <= k < n0 && r0[k] == i && c0[k] == b;
                                assert(m.row_indices@[k] == r0[k] && m.col_indices@[k] == c0[k]);
                            }
                        }
                    }
                }
                j = j + 1;
            }
            proof {
                assert forall|a: int, b: int| 0 <= a < i + 1 && 0 <= b < cols && #[trigger] matrix@[a]@[b] != 0 implies exists|k: int|
                    0 <= k < m.values@.len() && m.row_indices@[k] == a && m.col_indices@[k] == b by {
                    if a == i {
                        assert(matrix@[i as int]@[b] != 0);
                    }
                }
            }
            i = i + 1;
        }
        proof {
            assert forall|k: int| 0 <= k < m.triplets().len() implies (#[trigger] m.triplets()[k]).2 != 0 by {
                assert(m.values@[k] != 0);
            }
            assert forall|a: int, b: int| 0 <= a < matrix@.len() && 0 <= b < matrix@[a]@.len() && #[trigger] matrix@[a]@[b] != 0
                implies exists|k: int| 0 <= k < m.triplets().len() && m.triplets()[k].0 == a && m.triplets()[k].1 == b by {
                let k = choose|k: int| 0 <= k < m.values@.len() && m.row_indices@[k] == a && m.col_indices@[k] == b;
                assert(m.triplets()[k].0 == a && m.triplets()[k].1 == b);
            }
        }
        m
    }

    /// The dense form: a zero matrix of the shape with each stored value
    /// written at its place, in storage order.
    pub fn dissassemble(&self) -> (r: Vec<Vec<usize>>)
        requires
            self.wf(),
        ensures
            r@.len() == self.spec_shape().0,
            forall|i: int| 0 <= i < r@.len() ==> #[trigger] r@[i]@.len() == self.spec_shape().1,
    {
        let mut r: Vec<Vec<usize>> = Vec::new();
        let mut i: usize = 0;
        while i < self.shape.0
            invariant
                i <= self.shape.0,
                r@.len() == i,
                forall|a: int| 0 <= a < i ==> #[trigger] r@[a]@.len() == self.shape.1,
            decreases self.shape.0 - i,
        {
            let mut row: Vec<usize> = Vec::new();
            let mut j: usize = 0;
            while j < self.shape.1
                invariant
                    j <= self.shape.1,
                    row@.len() == j,
                decreases self.shape.1 - j,
            {
                row.push(0);
                j = j + 1;
            }
            r.push(row);
            i = i + 1;
        }
        let mut k: usize = 0;
        while k < self.values.len()
            invariant
                self.wf(),
                r@.len() == self.shape.0,
                forall|a: int| 0 <= a < r@.len() ==> #[trigger] r@[a]@.len() == self.shape.1,
            decreases self.values@.len() - k,
        {
            let ri = self.row_indices[k];
            let ci = self.col_indices[k];
            let mut row: Vec<usize> = Vec::new();
            r.set_and_swap(ri, &mut row);
            row.set(ci, self.values[k]);
            r.set(ri, row);
            k = k + 1;
        }
        r
    }

    /// The stored triplets `(row, column, value)`, in storage order.
    pub fn get_triplets(&self) -> (r: Vec<(usize, usize, usize)>)
        requires
            self.wf(),
        ensures
            r@ == self.triplets(),
    {
        let mut r: Vec<(usize, usize, usize)> = Vec::new();
        let mut k: usize = 0;
        while k < self.values.len()
            invariant
                self.wf(),
                k <= self.values@.len(),
                r@ == self.triplets().subrange(0, k as int),
            decreases self.values@.len() - k,
        {
            r.push((self.row_indices[k], self.col_indices[k], self.values[k]));
            k = k + 1;
            assert(r@ =~= self.triplets().subrange(0, k as int));
        }
        assert(self.triplets().subrange(0, k as int) =~= self.triplets());
        r
    }

    /// The row of each stored value.
    pub fn row_indices(&self) -> (r: Vec<usize>)
        requires
            self.wf(),
        ensures
            r@ == self.triplets().map_values(|t: (usize, usize, usize)| t.0),
    {
        let t = self.get_triplets();
        let mut r: Vec<usize> = Vec::new();
        let mut k: usize = 0;
        while k < t.len()
            invariant
                k <= t@.len(),
                r@ == t@.subrange(0, k as int).map_values(|x: (usize, usize, usize)| x.0),
            decreases t@.len() - k,
        {
            r.push(t[k].0);
            k = k + 1;
            assert(r@ =~= t@.subrange(0, k as int).map_values(|x: (usize, usize, usize)| x.0));
        }
        assert(t@.subrange(0, k as int) =~= t@);
        r
    }

    /// The column of each stored value.
    pub fn col_indices(&self) -> (r: Vec<usize>)
        requires
            self.wf(),
        ensures
            r@ == self.triplets().map_values(|t: (usize, usize, usize)| t.1),
    {
        let t = self.get_triplets();
        let mut r: Vec<usize> = Vec::new();
        let mut k: usize = 0;
        while k < t.len()
            invariant
                k <= t@.len(),
                r@ == t@.subrange(0, k as int).map_values(|x: (usize, usize, usize)| x.1),
            decreases t@.len() - k,
        {
            r.push(t[k].1);
            k = k + 1;
            assert(r@ =~= t@.subrange(0, k as int).map_values(|x: (usize, usize, usize)| x.1));
        }
        assert(t@.subrange(0, k as int) =~= t@);
        r
    }

    /// The stored values.
    pub fn values(&self) -> (r: Vec<usize>)
        requires
            self.wf(),
        ensures
            r@ == self.triplets().map_values(|t: (usize, usize, usize)| t.2),
    {
        let t = self.get_triplets();
        let mut r: Vec<usize> = Vec::new();
        let mut k: usize = 0;
        while k < t.len()
            invariant
                k <= t@.len(),
                r@ == t@.subrange(0, k as int).map_values(|x: (usize, usize, usize)| x.2),
            decreases t@.len() - k,
        {
            r.push(t[k].2);
            k = k + 1;
            assert(r@ =~= t@.subrange(0, k as int).map_values(|x: (usize, usize, usize)| x.2));
        }
        assert(t@.subrange(0, k as int) =~= t@);
        r
    }

    /// Every stored value multiplied by `k`.
    pub fn mul_scalar(&self, k: usize) -> (r: CooMatrix)
        requires
            self.wf(),
            forall|t: int| 0 <= t < self.triplets().len() ==> (#[trigger] self.triplets()[t]).2 * k <= usize::MAX,
        ensures
            r.wf(),
            r.spec_shape() == self.spec_shape(),
            r.triplets() == self.triplets().map_values(|t: (usize, usize, usize)| (t.0, t.1, (t.2 * k) as usize)),
    {
        let mut values: Vec<usize> = Vec::new();
        let mut i: usize = 0;
        while i < self.values.len()
            invariant
                self.wf(),
                i <= self.values@.len(),
                values@.len() == i,
                forall|t: int| 0 <= t < self.triplets().len() ==> (#[trigger] self.triplets()[t]).2 * k <= usize::MAX,
                forall|t: int| 0 <= t < i ==> #[trigger] values@[t] == self.values@[t] * k,
            decreases self.values@.len() - i,
        {
            assert(self.triplets()[i as int].2 == self.values@[i as int]);
            values.push(self.values[i] * k);
            i = i + 1;
        }
        let r = CooMatrix {
            row_indices: self.row_indices.clone(),
            col_indices: self.col_indices.clone(),
            values,
            shape: self.shape,
        };
        assert(r.row_indices@ =~= self.row_indices@);
        assert(r.col_indices@ =~= self.col_indices@);
        assert(r.triplets() =~= self.triplets().map_values(|t: (usize, usize, usize)| (t.0, t.1, (t.2 * k) as usize)));
        r
    }

    /// The text of the entry at row `i`, column `j`: its value (the first
    /// stored one there) or zero, and a space.
    pub closed spec fn cell_text(&self, i: int, j: int) -> Seq<char> {
        match first_at(self.row_indices@, self.col_indices@, i, j, 0) {
            Some(k) => decimal(self.values@[k] as nat) + seq![' '],
            None => seq!['0', ' '],
        }
    }

    /// The text of row `i` up to column `j`.
    pub closed spec fn row_text(&self, i: int, j: int) -> Seq<char>
        decreases j,
    {
        if j <= 0 {
            Seq::empty()
        } else {
            self.row_text(i, j - 1) + self.cell_text(i, j - 1)
        }
    }

    /// The text of the rows before row `i`, each but the last followed by a
    /// line break.
    pub closed spec fn text(&self, i: int) -> Seq<char>
        decreases i,
    {
        if i <= 0 {
            Seq::empty()
        } else if i == 1 {
            self.row_text(0, self.shape.1 as int)
        } else {
            self.text(i - 1) + seq!['\n'] + self.row_text(i - 1, self.shape.1 as int)
        }
    }

    /// The first stored value at row `i`, column `j`.
    fn find_at(&self, i: usize, j: usize) -> (r: Option<usize>)
        requires
            self.wf(),
        ensures
            r == (match first_at(self.row_indices@, self.col_indices@, i as int, j as int, 0) {
                Some(k) => Some(self.values@[k]),
                None => None::<usize>,
            }),
    {
        let n = self.values.len();
        let mut k: usize = n;
        let mut found: Option<usize> = None;
        while k > 0
            invariant
                self.wf(),
                n == self.values@.len(),
                k <= n,
                found == (match first_at(self.row_indices@, self.col_indices@, i as int, j as int, k as int) {
                    Some(x) => Some(self.values@[x]),
                    None => None::<usize>,
                }),
            decreases k,
        {
            k = k - 1;
            if self.row_indices[k] == i && self.col_indices[k] == j {
                found = Some(self.values[k]);
            }
        }
        found
    }

    /// The dense text of the matrix: each entry followed by a space, rows
    /// separated by line breaks.
    pub fn to_display_string(&self) -> (r: String)
        requires
            self.wf(),
        ensures
            r@ == self.text(self.spec_shape().0 as int),
    {
        let mut r = String::new();
        let mut i: usize = 0;
        while i < self.shape.0
            invariant
                self.wf(),
                i <= self.shape.0,
                r@ == self.text(i as int),
            decreases self.shape.0 - i,
        {
            if i > 0 {
                let nl = "\n".to_owned();
                proof {
                    reveal_strlit("\n");
                }
                r.append(nl.as_str());
            }
            let ghost before = r@;
            let mut j: usize = 0;
            while j < self.shape.1
                invariant
                    self.wf(),
                    i < self.shape.0,
                    j <= self.shape.1,
                    r@ == before + self.row_text(i as int, j as int),
                decreases self.shape.1 - j,
            {
                match self.find_at(i, j) {
                    Some(v) => {
                        let d = decimal_digits(v);
                        r.append(d.as_str());
                        let sp = " ".to_owned();
                        proof {
                            reveal_strlit(" ");
                        }
                        r.append(sp.as_str());
                    },
                    None => {
                        let z = "0 ".to_owned();
                        proof {
                            reveal_strlit("0 ");
                        }
                        r.append(z.as_str());
                    },
                }
                assert(r@ =~= before + self.row_text(i as int, j as int + 1));
                j = j + 1;
            }
            assert(r@ =~= self.text(i as int + 1));
            i = i + 1;
        }
        r
    }

    /// The matrix product `self * rhs` in coordinate form: one triplet for
    /// each pair of stored values where the column of the first is the row
    /// of the second (the triplets are not merged).
    pub fn mul(&self, rhs: &CooMatrix) -> (r: CooMatrix)
        requires
            self.wf(),
            rhs.wf(),
            forall|i: int, j: int| 0 <= i < self.triplets().len() && 0 <= j < rhs.triplets().len()
                ==> (#[trigger] self.triplets()[i]).2 * (#[trigger] rhs.triplets()[j]).2 <= usize::MAX,
        ensures
            r.wf(),
            r.spec_shape() == (self.spec_shape().0, rhs.spec_shape().1),
            r.triplets() == product(self.triplets(), rhs.triplets()),
    {
        let a = self.get_triplets();
        let b = rhs.get_triplets();
        let mut rows: Vec<usize> = Vec::new();
        let mut cols: Vec<usize> = Vec::new();
        let mut vals: Vec<usize> = Vec::new();
        let mut i: usize = 0;
        while i < a.len()
            invariant
                self.wf(),
                rhs.wf(),
                a@ == self.triplets(),
                b@ == rhs.triplets(),
                i <= a@.len(),
                rows@.len() == vals@.len(),
                cols@.len() == vals@.len(),
                forall|x: int, y: int| 0 <= x < a@.len() && 0 <= y < b@.len() ==> (#[trigger] a@[x]).2 * (#[trigger] b@[y]).2 <= usize::MAX,
                Seq::new(vals@.len(), |k: int| (rows@[k], cols@[k], vals@[k])) == product(a@.take(i as int), b@),
                forall|k: int| 0 <= k < vals@.len() ==> #[trigger] rows@[k] < self.shape.0 && cols@[k] < rhs.shape.1,
            decreases a@.len() - i,
        {
            let ghost base = product(a@.take(i as int), b@);
            let t = a[i];
            assert(t.0 < self.shape.0) by {
                assert(self.triplets()[i as int] == t);
            }
            let mut j: usize = 0;
            while j < b.len()
                invariant
                    rhs.wf(),
                    b@ == rhs.triplets(),
                    j <= b@.len(),
                    i < a@.len(),
                    t == a@[i as int],
                    t.0 < self.shape.0,
                    rows@.len() == vals@.len(),
                    cols@.len() == vals@.len(),
                    forall|x: int, y: int| 0 <= x < a@.len() && 0 <= y < b@.len() ==> (#[trigger] a@[x]).2 * (#[trigger] b@[y]).2 <= usize::MAX,
                    Seq::new(vals@.len(), |k: int| (rows@[k], cols@[k], vals@[k])) == base + matches_of(t, b@.take(j as int)),
                    forall|k: int| 0 <= k < vals@.len() ==> #[trigger] rows@[k] < self.shape.0 && cols@[k] < rhs.shape.1,
                decreases b@.len() - j,
            {
                let u = b[j];
                assert(u.1 < rhs.shape.1) by {
                    assert(rhs.triplets()[j as int] == u);
                }
                let ghost prev = Seq::new(vals@.len(), |k: int| (rows@[k], cols@[k], vals@[k]));
                let ghost rows0 = rows@;
                let ghost cols0 = cols@;
                assert(b@.take(j as int + 1).drop_last() =~= b@.take(j as int));
                if u.0 == t.1 {
                    assert(t.2 * u.2 <= usize::MAX);
                    rows.push(t.0);
                    cols.push(u.1);
                    vals.push(t.2 * u.2);
                    assert forall|k: int| 0 <= k < vals@.len() implies #[trigger] rows@[k] < self.shape.0 && cols@[k] < rhs.shape.1 by {
                        if k < rows0.len() {
                            assert(rows@[k] == rows0[k] && cols@[k] == cols0[k]);
                        }
                    }
                    assert(Seq::new(vals@.len(), |k: int| (rows@[k], cols@[k], vals@[k])) =~= prev.push((t.0, u.1, (t.2 * u.2) as usize)));
                    assert(base + matches_of(t, b@.take(j as int + 1)) =~= (base + matches_of(t, b@.take(j as int))).push((t.0, u.1, (t.2 * u.2) as usize)));
                } else {
                    assert(base + matches_of(t, b@.take(j as int + 1)) =~= base + matches_of(t, b@.take(j as int)));
                }
                j = j + 1;
            }
            assert(b@.take(b@.len() as int) =~= b@);
            assert(a@.take(i as int + 1).drop_last() =~= a@.take(i as int));
            assert(a@.take(i as int + 1).last() == t);
            i = i + 1;
        }
        assert(a@.take(a@.len() as int) =~= a@);
        let r = CooMatrix { row_indices: rows, col_indices: cols, values: vals, shape: (self.shape.0, rhs.shape.1) };
        assert(r.triplets() =~= product(self.triplets(), rhs.triplets()));
        r
    }

    /// The sum `self + rhs` in coordinate form: the triplets of `self`, each
    /// triplet of `rhs` added to the first one at its place or appended.
    pub fn add(&self, rhs: &CooMatrix) -> (r: CooMatrix)
        requires
            self.wf(),
            rhs.wf(),
            rhs.spec_shape() == self.spec_shape(),
            total(self.triplets()) + total(rhs.triplets()) <= usize::MAX,
        ensures
            r.wf(),
            r.spec_shape() == self.spec_shape(),
            r.triplets() == sum_triplets(self.triplets(), rhs.triplets()),
    {
        let a = self.get_triplets();
        let b = rhs.get_triplets();
        let mut ts: Vec<(usize, usize, usize)> = a;
        let mut j: usize = 0;
        while j < b.len()
            invariant
                self.wf(),
                rhs.wf(),
                rhs.shape == self.shape,
                b@ == rhs.triplets(),
                j <= b@.len(),
                ts@ == sum_triplets(self.triplets(), b@.take(j as int)),
                total(ts@) == total(self.triplets()) + total(b@.take(j as int)),
                total(self.triplets()) + total(b@) <= usize::MAX,
                forall|k: int| 0 <= k < ts@.len() ==> (#[trigger] ts@[k]).0 < self.shape.0 && ts@[k].1 < self.shape.1,
            decreases b@.len() - j,
        {
            let t = b[j];
            assert(b@.take(j as int + 1).drop_last() =~= b@.take(j as int));
            assert(b@.take(j as int + 1).last() == t);
            assert(total(b@.take(j as int + 1)) <= total(b@)) by {
                lemma_total_prefix(b@, j as int + 1);
            }
            assert(t.0 < self.shape.0 && t.1 < self.shape.1) by {
                assert(rhs.triplets()[j as int] == t);
            }
            let n = ts.len();
            let mut k: usize = n;
            let mut found: Option<usize> = None;
            while k > 0
                invariant
                    n == ts@.len(),
                    k <= n,
                    (match found {
                        Some(x) => first_pos(ts@, t.0, t.1, k as int) == Some(x as int),
                        None => first_pos(ts@, t.0, t.1, k as int) is None,
                    }),
                decreases k,
            {
                k = k - 1;
                if ts[k].0 == t.0 && ts[k].1 == t.1 {
                    found = Some(k);
                }
            }
            let ghost ts0 = ts@;
            match found {
                Some(p) => {
                    proof {
                        lemma_first_pos_in_range(ts0, t.0, t.1, 0);
                        lemma_total_update(ts0, p as int, (t.0, t.1, (ts0[p as int].2 + t.2) as usize));
                    }
                    let v = ts[p].2 + t.2;
                    ts.set(p, (t.0, t.1, v));
                    proof {
                        assert(ts@ == add_one(ts0, t));
                    }
                },
                None => {
                    ts.push(t);
                    proof {
                        lemma_total_push(ts0, t);
                    }
                },
            }
            proof {
                assert forall|q: int| 0 <= q < ts@.len() implies (#[trigger] ts@[q]).0 < self.shape.0 && ts@[q].1 < self.shape.1 by {
                    if q < ts0.len() && ts@[q] != (t.0, t.1, (ts0[q].2 + t.2) as usize) {
                        assert(ts@[q] == ts0[q]);
                    }
                }
            }
            j = j + 1;
        }
        assert(b@.take(b@.len() as int) =~= b@);
        let mut rows: Vec<usize> = Vec::new();
        let mut cols: Vec<usize> = Vec::new();
        let mut vals: Vec<usize> = Vec::new();
        let mut q: usize = 0;
        while q < ts.len()
            invariant
                q <= ts@.len(),
                rows@.len() == q,
                cols@.len() == q,
                vals@.len() == q,
                forall|k: int| 0 <= k < q ==> (#[trigger] rows@[k], cols@[k], vals@[k]) == ts@[k],
            decreases ts@.len() - q,
        {
            rows.push(ts[q].0);
            cols.push(ts[q].1);
            vals.push(ts[q].2);
            q = q + 1;
        }
        let r = CooMatrix { row_indices: rows, col_indices: cols, values: vals, shape: self.shape };
        assert forall|k: int| 0 <= k < ts@.len() implies #[trigger] r.triplets()[k] == ts@[k] by {
            assert((rows@[k], cols@[k], vals@[k]) == ts@[k]);
        }
        assert(r.triplets() =~= ts@);
        r
    }
}

proof fn lemma_total_prefix(ts: Seq<(usize, usize, usize)>, n: int)
    requires
        0 <= n <= ts.len(),
    ensures
        total(ts.take(n)) <= total(ts),
    decreases ts.len(),
{
    if n < ts.len() {
        assert(ts.drop_last().take(n) =~= ts.take(n));
        lemma_total_prefix(ts.drop_last(), n);
    } else {
        assert(ts.take(n) =~= ts);
    }
}

proof fn lemma_first_pos_in_range(ts: Seq<(usize, usize, usize)>, r: usize, c: usize, from: int)
    ensures
        first_pos(ts, r, c, from) matches Some(k) ==> from <= k < ts.len() && ts[k].0 == r && ts[k].1 == c,
    decreases ts.len() - from,
{
    if 0 <= from < ts.len() && !(ts[from].0 == r && ts[from].1 == c) {
        lemma_first_pos_in_range(ts, r, c, from + 1);
    }
}

} // verus!
