use vstd::prelude::*;
use crate::combinatorics::{
    factorial, lemma_increasing_no_inversions, is_permutation_of, listed, pairwise_distinct, parity, permutations, sign_of,
};

verus! {

/// The indices `0, 1, ..., n - 1`.
pub open spec fn indices(n: nat) -> Seq<i32> {
    Seq::new(n, |i: int| i as i32)
}

/// One summand of the Leibniz expansion of a square grid: for the ordering `order` of
/// the row indices, its sign and the entries (`order[c]`, `c`) taken column by column.
/// The summand's value is `sign` times the product of `factors`.
pub struct LeibnizTerm<T> {
    pub sign: i8,
    pub order: Vec<i32>,
    pub factors: Vec<T>,
}

/// The orderings that a sequence of summands is built on.
pub open spec fn orders<T>(ts: Seq<LeibnizTerm<T>>) -> Seq<Vec<i32>> {
    ts.map_values(|t: LeibnizTerm<T>| t.order)
}

/// `t` is the summand of `m`'s Leibniz expansion for an ordering of the `n` row indices.
pub open spec fn is_leibniz_term<T>(m: Seq<Seq<T>>, n: nat, t: LeibnizTerm<T>) -> bool {
    &&& is_permutation_of(t.order@, indices(n))
    &&& t.sign == sign_of(t.order@)
    &&& t.factors@ == Seq::new(n, |c: int| m[t.order@[c] as int][c])
}

/// `accs` accumulates the products of `a` and `b` position by position, in increasing
/// position: `accs[0]` is `zero`, `prods[c]` is a result of `times` on `a[c]` and `b[c]`,
/// and `accs[c + 1]` a result of `plus` on `accs[c]` and `prods[c]`.
pub open spec fn is_dot_chain<T, FA: Fn(T, T) -> T, FM: Fn(T, T) -> T>(
    a: Seq<T>,
    b: Seq<T>,
    zero: T,
    plus: FA,
    times: FM,
    prods: Seq<T>,
    accs: Seq<T>,
) -> bool {
    &&& prods.len() == a.len()
    &&& accs.len() == a.len() + 1
    &&& accs[0] == zero
    &&& forall|c: int| 0 <= c < a.len() ==> #[trigger] times.ensures((a[c], b[c]), prods[c])
    &&& forall|c: int| 0 <= c < a.len() ==> #[trigger] plus.ensures((accs[c], prods[c]), accs[c + 1])
}

/// `v` is what the accumulation of `a` and `b` from `zero` by `plus` and `times` ends with.
pub open spec fn is_dot<T, FA: Fn(T, T) -> T, FM: Fn(T, T) -> T>(
    a: Seq<T>,
    b: Seq<T>,
    zero: T,
    plus: FA,
    times: FM,
    v: T,
) -> bool {
    exists|prods: Seq<T>, accs: Seq<T>|
        #[trigger] is_dot_chain(a, b, zero, plus, times, prods, accs) && v == accs[a.len() as int]
}

/// Column `j` of the grid `m` of `n` rows.
pub open spec fn column_of<T>(m: Seq<Seq<T>>, n: nat, j: int) -> Seq<T> {
    Seq::new(n, |c: int| m[c][j])
}

/// `ts` is the whole Leibniz expansion of the `n` x `n` grid `m`: one summand for each
/// ordering of the row indices, no ordering twice, so `n!` summands where `n > 0`.
pub open spec fn is_leibniz_expansion<T>(m: Seq<Seq<T>>, n: nat, ts: Seq<LeibnizTerm<T>>) -> bool {
    &&& n == 0 ==> ts.len() == 0
    &&& n > 0 ==> ts.len() == factorial(n)
    &&& forall|k: int| 0 <= k < ts.len() ==> is_leibniz_term(m, n, #[trigger] ts[k])
    &&& pairwise_distinct(orders(ts))
    &&& n > 0 ==> forall|p: Seq<i32>| is_permutation_of(p, indices(n)) ==> listed(orders(ts), p)
}

/// `accs` multiplies up `fs` from `one` by `times`, left to right: `accs[c + 1]` is a
/// result of `times` on `accs[c]` and `fs[c]`.
pub open spec fn is_product_chain<T, FM: Fn(T, T) -> T>(fs: Seq<T>, one: T, times: FM, accs: Seq<T>) -> bool {
    &&& accs.len() == fs.len() + 1
    &&& accs[0] == one
    &&& forall|c: int| 0 <= c < fs.len() ==> #[trigger] times.ensures((accs[c], fs[c]), accs[c + 1])
}

/// `v` is the value of the summand `t`: the product of its factors, negated by `negate`
/// where its sign is not 1.
pub open spec fn is_term_value<T, FM: Fn(T, T) -> T, FN: Fn(T) -> T>(
    t: LeibnizTerm<T>,
    one: T,
    times: FM,
    negate: FN,
    v: T,
) -> bool {
    exists|accs: Seq<T>|
        #[trigger] is_product_chain(t.factors@, one, times, accs) && if t.sign == 1 {
            v == accs[t.factors@.len() as int]
        } else {
            negate.ensures((accs[t.factors@.len() as int],), v)
        }
}

/// `sums` adds up `vals` from `zero` by `plus`, left to right.
pub open spec fn is_sum_chain<T, FA: Fn(T, T) -> T>(vals: Seq<T>, zero: T, plus: FA, sums: Seq<T>) -> bool {
    &&& sums.len() == vals.len() + 1
    &&& sums[0] == zero
    &&& forall|k: int| 0 <= k < vals.len() ==> #[trigger] plus.ensures((sums[k], vals[k]), sums[k + 1])
}

/// `d` is the sum, from `zero` and in order, of the values of the summands `ts`.
pub open spec fn is_expansion_value<T, FA: Fn(T, T) -> T, FM: Fn(T, T) -> T, FN: Fn(T) -> T>(
    ts: Seq<LeibnizTerm<T>>,
    zero: T,
    one: T,
    plus: FA,
    times: FM,
    negate: FN,
    d: T,
) -> bool {
    exists|vals: Seq<T>, sums: Seq<T>|
        #[trigger] is_sum_chain(vals, zero, plus, sums) && vals.len() == ts.len() && d == sums[ts.len() as int]
            && forall|k: int| 0 <= k < ts.len() ==> #[trigger] is_term_value(ts[k], one, times, negate, vals[k])
}

/// The sum, from `zero` and in order, of the summands `terms`: each one the product of
/// its factors from `one` by `times`, negated by `negate` where its sign is not 1.
pub fn expansion_sum<T: Copy, FA: Fn(T, T) -> T, FM: Fn(T, T) -> T, FN: Fn(T) -> T>(
    terms: &Vec<LeibnizTerm<T>>,
    zero: T,
    one: T,
    plus: FA,
    times: FM,
    negate: FN,
) -> (r: T)
    requires
        forall|a: T, b: T| #[trigger] plus.requires((a, b)),
        forall|a: T, b: T| #[trigger] times.requires((a, b)),
        forall|a: T| #[trigger] negate.requires((a,)),
    ensures
        is_expansion_value(terms@, zero, one, plus, times, negate, r),
{
    let mut sum = zero;
    let ghost mut vals: Seq<T> = Seq::empty();
    let ghost mut sums: Seq<T> = seq![zero];
    let mut k: usize = 0;
    while k < terms.len()
        invariant
            forall|a: T, b: T| #[trigger] plus.requires((a, b)),
            forall|a: T, b: T| #[trigger] times.requires((a, b)),
            forall|a: T| #[trigger] negate.requires((a,)),
            k <= terms@.len(),
            vals.len() == k,
            is_sum_chain(vals, zero, plus, sums),
            sum == sums[k as int],
            forall|a: int| 0 <= a < k ==> #[trigger] is_term_value(terms@[a], one, times, negate, vals[a]),
        decreases terms@.len() - k,
    {
        let t = &terms[k];
        let mut prod = one;
        let ghost mut accs: Seq<T> = seq![one];
        let mut c: usize = 0;
        while c < t.factors.len()
            invariant
                forall|a: T, b: T| #[trigger] times.requires((a, b)),
                c <= t.factors@.len(),
                is_product_chain(t.factors@.subrange(0, c as int), one, times, accs),
                prod == accs[c as int],
            decreases t.factors@.len() - c,
        {
            let next = times(prod, t.factors[c]);
            proof {
                let old_accs = accs;
                accs = accs.push(next);
                let fs = t.factors@.subrange(0, c + 1);
                assert forall|d: int| 0 <= d < c + 1 implies #[trigger] times.ensures((accs[d], fs[d]), accs[d + 1]) by {
                    if d < c {
                        assert(accs[d] == old_accs[d]);
                        assert(accs[d + 1] == old_accs[d + 1]);
                        assert(fs[d] == t.factors@.subrange(0, c as int)[d]);
                    }
                }
            }
            prod = next;
            c = c + 1;
        }
        let v = if t.sign == 1 { prod } else { negate(prod) };
        proof {
            assert(t.factors@.subrange(0, t.factors@.len() as int) == t.factors@);
            assert(is_product_chain(t.factors@, one, times, accs));
            assert(is_term_value(*t, one, times, negate, v));
        }
        let next = plus(sum, v);
        proof {
            let old_vals = vals;
            let old_sums = sums;
            vals = vals.push(v);
            sums = sums.push(next);
            assert forall|a: int| 0 <= a < k + 1 implies #[trigger] plus.ensures((sums[a], vals[a]), sums[a + 1]) by {
                if a < k {
                    assert(sums[a] == old_sums[a]);
                    assert(sums[a + 1] == old_sums[a + 1]);
                    assert(vals[a] == old_vals[a]);
                }
            }
            assert forall|a: int| 0 <= a < k + 1 implies #[trigger] is_term_value(terms@[a], one, times, negate, vals[a]) by {
                if a < k {
                    assert(vals[a] == old_vals[a]);
                }
            }
        }
        sum = next;
        k = k + 1;
    }
    proof {
        assert(is_sum_chain(vals, zero, plus, sums));
    }
    sum
}

/// A fresh vector with the same elements as `v`.
fn copied<T: Copy>(v: &Vec<T>) -> (r: Vec<T>)
    ensures
        r@ == v@,
{
    let mut r: Vec<T> = Vec::new();
    let mut j: usize = 0;
    while j < v.len()
        invariant
            j <= v@.len(),
            r@ == v@.subrange(0, j as int),
        decreases v@.len() - j,
    {
        r.push(v[j]);
        j = j + 1;
    }
    r
}

/// `v` is a grid of `r` rows, each of `c` entries.
pub open spec fn shaped<T>(v: Seq<Seq<T>>, r: nat, c: nat) -> bool {
    &&& v.len() == r
    &&& forall|i: int| 0 <= i < r ==> (#[trigger] v[i]).len() == c
}

/// The rows of a nested vector, each as a sequence.
pub open spec fn rows_of<T>(rows: Seq<Vec<T>>) -> Seq<Seq<T>> {
    rows.map_values(|r: Vec<T>| r@)
}

/// The length of the first row, or 0 where there is none.
pub open spec fn width_of<T>(v: Seq<Seq<T>>) -> nat {
    if v.len() == 0 {
        0
    } else {
        v[0].len()
    }
}

/// A dense grid of `row` x `column` entries, addressed by a zero-based (row, column)
/// pair and stored row by row.
pub struct Matrix<T> {
    row: usize,
    column: usize,
    content: Vec<Vec<T>>,
}

impl<T> View for Matrix<T> {
    type V = Seq<Seq<T>>;

    /// The rows of the grid, each a sequence of entries.
    closed spec fn view(&self) -> Seq<Seq<T>> {
        self.content@.map_values(|r: Vec<T>| r@)
    }
}

impl<T> Matrix<T> {
    /// Number of rows.
    pub closed spec fn rows(&self) -> nat {
        self.row as nat
    }

    /// Number of columns.
    pub closed spec fn cols(&self) -> nat {
        self.column as nat
    }

    /// The stored entries form exactly `rows()` rows of `cols()` entries.
    pub open spec fn wf(&self) -> bool {
        shaped(self@, self.rows(), self.cols())
    }

    /// Number of rows.
    pub fn row(&self) -> (r: usize)
        ensures
            r == self.rows(),
    {
        self.row
    }

    /// Number of columns.
    pub fn column(&self) -> (r: usize)
        ensures
            r == self.cols(),
    {
        self.column
    }
}

impl<T: Copy> Matrix<T> {
    /// A `row` x `column` grid with every entry set to `value`.
    pub fn full(value: T, row: usize, column: usize) -> (r: Self)
        ensures
            r.wf(),
            r.rows() == row,
            r.cols() == column,
            forall|i: int, j: int| 0 <= i < row && 0 <= j < column ==> #[trigger] r@[i][j] == value,
    {
        let mut content: Vec<Vec<T>> = Vec::new();
        let mut i: usize = 0;
        while i < row
            invariant
                i <= row,
                content@.len() == i,
                forall|a: int| 0 <= a < i ==> (#[trigger] content@[a])@ == Seq::new(column as nat, |b: int| value),
            decreases row - i,
        {
            let mut line: Vec<T> = Vec::new();
            let mut j: usize = 0;
            while j < column
                invariant
                    j <= column,
                    line@ == Seq::new(j as nat, |b: int| value),
                decreases column - j,
            {
                line.push(value);
                j = j + 1;
            }
            content.push(line);
            i = i + 1;
        }
        let r = Matrix { row, column, content };
        assert(forall|a: int| 0 <= a < row ==> #[trigger] r@[a] == content@[a]@);
        r
    }

    /// A `row` x `column` grid with every entry set to `zero`.
    pub fn new(row: usize, column: usize, zero: T) -> (r: Self)
        ensures
            r.wf(),
            r.rows() == row,
            r.cols() == column,
            forall|i: int, j: int| 0 <= i < row && 0 <= j < column ==> #[trigger] r@[i][j] == zero,
    {
        Self::full(zero, row, column)
    }

    /// The `n` x 1 grid whose single column holds `v`.
    pub fn from_column(v: &Vec<T>) -> (r: Self)
        ensures
            r.wf(),
            r.rows() == v@.len(),
            r.cols() == 1,
            forall|i: int| 0 <= i < v@.len() ==> #[trigger] r@[i] == seq![v@[i]],
    {
        let mut content: Vec<Vec<T>> = Vec::new();
        let mut i: usize = 0;
        while i < v.len()
            invariant
                i <= v@.len(),
                content@.len() == i,
                forall|a: int| 0 <= a < i ==> (#[trigger] content@[a])@ == seq![v@[a]],
            decreases v@.len() - i,
        {
            let mut line: Vec<T> = Vec::new();
            line.push(v[i]);
            content.push(line);
            i = i + 1;
        }
        let r = Matrix { row: v.len(), column: 1, content };
        assert(forall|a: int| 0 <= a < v@.len() ==> #[trigger] r@[a] == content@[a]@);
        r
    }

    /// The grid whose rows are `rows`, or `None` where the rows do not all have the same
    /// length. No rows give a 0 x 0 grid.
    pub fn from_rows(rows: Vec<Vec<T>>) -> (r: Option<Self>)
        ensures
            r is Some <==> shaped(rows_of(rows@), rows@.len(), width_of(rows_of(rows@))),
            match r {
                Some(m) => {
                    &&& m.wf()
                    &&& m.rows() == rows@.len()
                    &&& m.cols() == width_of(rows_of(rows@))
                    &&& m@ == rows_of(rows@)
                },
                None => true,
            },
    {
        let n = rows.len();
        let column: usize = if n == 0 { 0 } else { rows[0].len() };
        let mut i: usize = 0;
        while i < n
            invariant
                n == rows@.len(),
                i <= n,
                column == width_of(rows_of(rows@)),
                forall|a: int| 0 <= a < i ==> (#[trigger] rows@[a])@.len() == column,
            decreases n - i,
        {
            if rows[i].len() != column {
                assert(rows_of(rows@)[i as int] == rows@[i as int]@);
                return None;
            }
            i = i + 1;
        }
        let m = Matrix { row: n, column, content: rows };
        assert(m@ =~= rows_of(rows@));
        Some(m)
    }

    /// The `n` x `n` grid with `one` where the row index equals the column index and
    /// `zero` everywhere else.
    pub fn identity(n: usize, zero: T, one: T) -> (r: Self)
        ensures
            r.wf(),
            r.rows() == n,
            r.cols() == n,
            r@ == identity_grid(n as nat, zero, one),
    {
        let mut content: Vec<Vec<T>> = Vec::new();
        let mut i: usize = 0;
        while i < n
            invariant
                i <= n,
                content@.len() == i,
                forall|a: int| 0 <= a < i ==> (#[trigger] content@[a])@ == Seq::new(n as nat, |b: int| if a == b { one } else { zero }),
            decreases n - i,
        {
            let mut line: Vec<T> = Vec::new();
            let mut j: usize = 0;
            while j < n
                invariant
                    j <= n,
                    i < n,
                    line@ == Seq::new(j as nat, |b: int| if i == b { one } else { zero }),
                decreases n - j,
            {
                if i == j {
                    line.push(one);
                } else {
                    line.push(zero);
                }
                j = j + 1;
            }
            content.push(line);
            i = i + 1;
        }
        let r = Matrix { row: n, column: n, content };
        assert(forall|a: int| 0 <= a < n ==> #[trigger] r@[a] == content@[a]@);
        assert(r@ =~= identity_grid(n as nat, zero, one));
        r
    }

    /// The entry at (`i`, `j`), or `None` where `i` is not below the row count or `j`
    /// is not below the column count.
    pub fn get_element(&self, i: usize, j: usize) -> (r: Option<T>)
        requires
            self.wf(),
        ensures
            r == if i < self.rows() && j < self.cols() { Some(self@[i as int][j as int]) } else { None::<T> },
    {
        if i >= self.row || j >= self.column {
            None
        } else {
            assert(self@[i as int] == self.content@[i as int]@);
            Some(self.content[i][j])
        }
    }

    /// A mutable reference to the entry at (`i`, `j`), or `None` under the same bounds as
    /// `get_element`. Writing through the reference changes that entry alone; that the
    /// grid stays well formed is `lemma_entry_update_keeps_shape`.
    pub fn get_mut_element(&mut self, i: usize, j: usize) -> (r: Option<&mut T>)
        requires
            old(self).wf(),
        ensures
            r is None <==> !(i < old(self).rows() && j < old(self).cols()),
            r is None ==> *final(self) == *old(self),
            match r {
                Some(e) => {
                    &&& *e == old(self)@[i as int][j as int]
                    &&& final(self).rows() == old(self).rows()
                    &&& final(self).cols() == old(self).cols()
                    &&& final(self)@ == old(self)@.update(i as int, old(self)@[i as int].update(j as int, *final(e)))
                },
                None => true,
            },
    {
        if i >= self.row || j >= self.column {
            None
        } else {
            assert(self@[i as int] == self.content@[i as int]@);
            Some(&mut self.content[i][j])
        }
    }

    /// The grid whose entry (`i`, `j`) is `f` applied to entry (`i`, `j`) of `self` and of
    /// `other`, or `None` where the two grids differ in row or column count.
    pub fn zip_with<F: Fn(T, T) -> T>(&self, other: &Matrix<T>, f: F) -> (r: Option<Matrix<T>>)
        requires
            self.wf(),
            other.wf(),
            forall|a: T, b: T| #[trigger] f.requires((a, b)),
        ensures
            r is Some <==> (self.rows() == other.rows() && self.cols() == other.cols()),
            match r {
                Some(m) => {
                    &&& m.wf()
                    &&& m.rows() == self.rows()
                    &&& m.cols() == self.cols()
                    &&& forall|i: int, j: int| 0 <= i < self.rows() && 0 <= j < self.cols()
                        ==> f.ensures((self@[i][j], other@[i][j]), #[trigger] m@[i][j])
                },
                None => true,
            },
    {
        if self.row != other.row || self.column != other.column {
            return None;
        }
        let mut content: Vec<Vec<T>> = Vec::new();
        let mut i: usize = 0;
        while i < self.row
            invariant
                self.wf(),
                other.wf(),
                self.rows() == other.rows(),
                self.cols() == other.cols(),
                forall|a: T, b: T| #[trigger] f.requires((a, b)),
                i <= self.row,
                content@.len() == i,
                forall|a: int| 0 <= a < i ==> (#[trigger] content@[a])@.len() == self.column,
                forall|a: int, b: int| 0 <= a < i && 0 <= b < self.column
                    ==> f.ensures((self@[a][b], other@[a][b]), #[trigger] content@[a]@[b]),
            decreases self.row - i,
        {
            let mut line: Vec<T> = Vec::new();
            let mut j: usize = 0;
            assert(self@[i as int] == self.content@[i as int]@);
            assert(other@[i as int] == other.content@[i as int]@);
            while j < self.column
                invariant
                    self.wf(),
                    other.wf(),
                    self.rows() == other.rows(),
                    self.cols() == other.cols(),
                    self@[i as int] == self.content@[i as int]@,
                    other@[i as int] == other.content@[i as int]@,
                    forall|a: T, b: T| #[trigger] f.requires((a, b)),
                    i < self.row,
                    j <= self.column,
                    line@.len() == j,
                    forall|b: int| 0 <= b < j ==> f.ensures((self@[i as int][b], other@[i as int][b]), #[trigger] line@[b]),
                decreases self.column - j,
            {
                let e = f(self.content[i][j], other.content[i][j]);
                line.push(e);
                j = j + 1;
            }
            content.push(line);
            i = i + 1;
        }
        let m = Matrix { row: self.row, column: self.column, content };
        assert(forall|a: int| 0 <= a < self.row ==> #[trigger] m@[a] == m.content@[a]@);
        Some(m)
    }

    /// The summands of the Leibniz expansion of a square grid: one for each ordering
    /// `s` of the row indices, with the sign of `s` and the entries (`s[c]`, `c`) for
    /// every column `c`. The determinant is the sum over them of sign times the product
    /// of the factors. `None` where the grid is not square. The orderings are all
    /// different and every ordering appears, so an `n` x `n` grid with `n > 0` has `n!`
    /// summands; this grows factorially and is meant for small grids only.
    pub fn leibniz_terms(&self) -> (r: Option<Vec<LeibnizTerm<T>>>)
        requires
            self.wf(),
            self.rows() <= i32::MAX,
        ensures
            r is Some <==> self.rows() == self.cols(),
            match r {
                Some(ts) => is_leibniz_expansion(self@, self.rows(), ts@),
                None => true,
            },
    {
        if self.row != self.column {
            return None;
        }
        let n = self.row;
        let mut idx: Vec<i32> = Vec::new();
        let mut i: usize = 0;
        while i < n
            invariant
                i <= n,
                n <= i32::MAX,
                idx@ == indices(i as nat),
            decreases n - i,
        {
            idx.push(i as i32);
            i = i + 1;
            assert(idx@ =~= indices(i as nat));
        }
        assert(idx@.no_duplicates());
        let perms = permutations(&idx);
        let mut terms: Vec<LeibnizTerm<T>> = Vec::new();
        let mut k: usize = 0;
        while k < perms.len()
            invariant
                self.wf(),
                self.rows() == n,
                self.cols() == n,
                idx@ == indices(n as nat),
                forall|a: int| 0 <= a < perms@.len() ==> is_permutation_of(#[trigger] perms@[a]@, idx@),
                k <= perms@.len(),
                terms@.len() == k,
                forall|a: int| 0 <= a < k ==> (#[trigger] terms@[a]).order@ == perms@[a]@,
                n <= i32::MAX,
                forall|a: int| 0 <= a < k ==> is_leibniz_term(self@, n as nat, #[trigger] terms@[a]),
            decreases perms@.len() - k,
        {
            let order = copied(&perms[k]);
            let sign = parity(&order);
            let mut factors: Vec<T> = Vec::new();
            let mut c: usize = 0;
            while c < n
                invariant
                    self.wf(),
                    self.rows() == n,
                    self.cols() == n,
                    c <= n,
                    n <= i32::MAX,
                    is_permutation_of(order@, indices(n as nat)),
                    factors@ == Seq::new(c as nat, |b: int| self@[order@[b] as int][b]),
                decreases n - c,
            {
                proof {
                    assert(indices(n as nat).contains(order@[c as int]));
                    let m = choose|m: int| 0 <= m < n && indices(n as nat)[m] == order@[c as int];
                    assert(order@[c as int] == m);
                }
                let row = order[c] as usize;
                assert(self@[row as int] == self.content@[row as int]@);
                factors.push(self.content[row][c]);
                c = c + 1;
                assert(factors@ =~= Seq::new(c as nat, |b: int| self@[order@[b] as int][b]));
            }
            terms.push(LeibnizTerm { sign, order, factors });
            k = k + 1;
        }
        proof {
            let os = orders(terms@);
            assert forall|a: int| 0 <= a < os.len() implies (#[trigger] os[a])@ == perms@[a]@ by {
                assert(os[a] == terms@[a].order);
            }
            assert forall|a: int, b: int| 0 <= a < os.len() && 0 <= b < os.len() && a != b
                implies (#[trigger] os[a])@ != (#[trigger] os[b])@ by {
                assert(perms@[a]@ != perms@[b]@);
            }
            if n > 0 {
                assert forall|p: Seq<i32>| is_permutation_of(p, indices(n as nat)) implies listed(os, p) by {
                    assert(listed(perms@, p));
                    let a = choose|a: int| 0 <= a < perms@.len() && (#[trigger] perms@[a])@ == p;
                    assert(os[a]@ == p);
                }
            }
        }
        Some(terms)
    }

    /// The product of `self` and `other`: entry (`i`, `j`) accumulates, from `zero` and
    /// in increasing index `c`, `plus` of the sum so far and `times` of entry (`i`, `c`) of
    /// `self` and entry (`c`, `j`) of `other`. The result has `self`'s row count and
    /// `other`'s column count; `None` where `self`'s column count differs from
    /// `other`'s row count.
    pub fn multiply_with<FA: Fn(T, T) -> T, FM: Fn(T, T) -> T>(
        &self,
        other: &Matrix<T>,
        zero: T,
        plus: FA,
        times: FM,
    ) -> (r: Option<Matrix<T>>)
        requires
            self.wf(),
            other.wf(),
            forall|a: T, b: T| #[trigger] plus.requires((a, b)),
            forall|a: T, b: T| #[trigger] times.requires((a, b)),
        ensures
            r is Some <==> self.cols() == other.rows(),
            match r {
                Some(m) => {
                    &&& m.wf()
                    &&& m.rows() == self.rows()
                    &&& m.cols() == other.cols()
                    &&& forall|i: int, j: int| 0 <= i < self.rows() && 0 <= j < other.cols()
                        ==> is_dot(self@[i], column_of(other@, other.rows(), j), zero, plus, times, #[trigger] m@[i][j])
                },
                None => true,
            },
    {
        if self.column != other.row {
            return None;
        }
        let k = self.column;
        let mut content: Vec<Vec<T>> = Vec::new();
        let mut i: usize = 0;
        while i < self.row
            invariant
                self.wf(),
                other.wf(),
                k == self.cols(),
                k == other.rows(),
                forall|a: T, b: T| #[trigger] plus.requires((a, b)),
                forall|a: T, b: T| #[trigger] times.requires((a, b)),
                i <= self.row,
                content@.len() == i,
                forall|a: int| 0 <= a < i ==> (#[trigger] content@[a])@.len() == other.column,
                forall|a: int, b: int| 0 <= a < i && 0 <= b < other.column
                    ==> is_dot(self@[a], column_of(other@, k as nat, b), zero, plus, times, #[trigger] content@[a]@[b]),
            decreases self.row - i,
        {
            let mut line: Vec<T> = Vec::new();
            let mut j: usize = 0;
            assert(self@[i as int] == self.content@[i as int]@);
            while j < other.column
                invariant
                    self.wf(),
                    other.wf(),
                    k == self.cols(),
                    k == other.rows(),
                    self@[i as int] == self.content@[i as int]@,
                    forall|a: T, b: T| #[trigger] plus.requires((a, b)),
                    forall|a: T, b: T| #[trigger] times.requires((a, b)),
                    i < self.row,
                    j <= other.column,
                    line@.len() == j,
                    forall|b: int| 0 <= b < j
                        ==> is_dot(self@[i as int], column_of(other@, k as nat, b), zero, plus, times, #[trigger] line@[b]),
                decreases other.column - j,
            {
                let ghost col = column_of(other@, k as nat, j as int);
                let ghost row_i = self@[i as int];
                let mut acc = zero;
                let ghost mut prods: Seq<T> = Seq::empty();
                let ghost mut accs: Seq<T> = seq![zero];
                let mut c: usize = 0;
                while c < k
                    invariant
                        self.wf(),
                        other.wf(),
                        k == self.cols(),
                        k == other.rows(),
                        i < self.row,
                        j < other.column,
                        row_i == self@[i as int],
                        row_i == self.content@[i as int]@,
                        col == column_of(other@, k as nat, j as int),
                        forall|a: T, b: T| #[trigger] plus.requires((a, b)),
                        forall|a: T, b: T| #[trigger] times.requires((a, b)),
                        c <= k,
                        is_dot_chain(row_i.subrange(0, c as int), col.subrange(0, c as int), zero, plus, times, prods, accs),
                        acc == accs[c as int],
                    decreases k - c,
                {
                    assert(other@[c as int] == other.content@[c as int]@);
                    let p = times(self.content[i][c], other.content[c][j]);
                    let next = plus(acc, p);
                    proof {
                        prods = prods.push(p);
                        accs = accs.push(next);
                        let ra = row_i.subrange(0, c + 1);
                        let cb = col.subrange(0, c + 1);
                        assert forall|d: int| 0 <= d < c + 1 implies #[trigger] times.ensures((ra[d], cb[d]), prods[d]) by {
                            if d < c {
                                assert(ra[d] == row_i.subrange(0, c as int)[d]);
                                assert(cb[d] == col.subrange(0, c as int)[d]);
                            }
                        }
                        assert forall|d: int| 0 <= d < c + 1 implies #[trigger] plus.ensures((accs[d], prods[d]), accs[d + 1]) by {
                            if d < c {
                                assert(accs[d] == accs.drop_last()[d]);
                            }
                        }
                    }
                    acc = next;
                    c = c + 1;
                }
                proof {
                    assert(row_i.subrange(0, k as int) == row_i);
                    assert(col.subrange(0, k as int) == col);
                    assert(is_dot_chain(row_i, col, zero, plus, times, prods, accs));
                }
                line.push(acc);
                j = j + 1;
            }
            content.push(line);
            i = i + 1;
        }
        let m = Matrix { row: self.row, column: other.column, content };
        assert(forall|a: int| 0 <= a < self.row ==> #[trigger] m@[a] == m.content@[a]@);
        Some(m)
    }

    /// The grid whose every entry is `f` applied to the entry at the same place of `self`.
    pub fn map_entries<F: Fn(T) -> T>(&self, f: F) -> (r: Matrix<T>)
        requires
            self.wf(),
            forall|a: T| #[trigger] f.requires((a,)),
        ensures
            r.wf(),
            r.rows() == self.rows(),
            r.cols() == self.cols(),
            forall|i: int, j: int| 0 <= i < self.rows() && 0 <= j < self.cols()
                ==> f.ensures((self@[i][j],), #[trigger] r@[i][j]),
    {
        let mut content: Vec<Vec<T>> = Vec::new();
        let mut i: usize = 0;
        while i < self.row
            invariant
                self.wf(),
                forall|a: T| #[trigger] f.requires((a,)),
                i <= self.row,
                content@.len() == i,
                forall|a: int| 0 <= a < i ==> (#[trigger] content@[a])@.len() == self.column,
                forall|a: int, b: int| 0 <= a < i && 0 <= b < self.column
                    ==> f.ensures((self@[a][b],), #[trigger] content@[a]@[b]),
            decreases self.row - i,
        {
            let mut line: Vec<T> = Vec::new();
            let mut j: usize = 0;
            assert(self@[i as int] == self.content@[i as int]@);
            while j < self.column
                invariant
                    self.wf(),
                    self@[i as int] == self.content@[i as int]@,
                    forall|a: T| #[trigger] f.requires((a,)),
                    i < self.row,
                    j <= self.column,
                    line@.len() == j,
                    forall|b: int| 0 <= b < j ==> f.ensures((self@[i as int][b],), #[trigger] line@[b]),
                decreases self.column - j,
            {
                let e = f(self.content[i][j]);
                line.push(e);
                j = j + 1;
            }
            content.push(line);
            i = i + 1;
        }
        let m = Matrix { row: self.row, column: self.column, content };
        assert(forall|a: int| 0 <= a < self.row ==> #[trigger] m@[a] == m.content@[a]@);
        m
    }

    /// The determinant by Leibniz expansion, over the entry arithmetic given by `zero`,
    /// `one`, `plus`, `times` and `negate`: the sum, from `zero`, of the summands of
    /// `leibniz_terms`, each the product of its factors negated where its sign is -1.
    /// `None` where the grid is not square. The cost grows as `n!`.
    pub fn determinant<FA: Fn(T, T) -> T, FM: Fn(T, T) -> T, FN: Fn(T) -> T>(
        &self,
        zero: T,
        one: T,
        plus: FA,
        times: FM,
        negate: FN,
    ) -> (r: Option<T>)
        requires
            self.wf(),
            self.rows() <= i32::MAX,
            forall|a: T, b: T| #[trigger] plus.requires((a, b)),
            forall|a: T, b: T| #[trigger] times.requires((a, b)),
            forall|a: T| #[trigger] negate.requires((a,)),
        ensures
            r is Some <==> self.rows() == self.cols(),
            match r {
                Some(d) => exists|ts: Seq<LeibnizTerm<T>>|
                    #[trigger] is_leibniz_expansion(self@, self.rows(), ts)
                        && is_expansion_value(ts, zero, one, plus, times, negate, d),
                None => true,
            },
    {
        match self.leibniz_terms() {
            Some(terms) => {
                let d = expansion_sum(&terms, zero, one, plus, times, negate);
                assert(is_leibniz_expansion(self@, self.rows(), terms@));
                Some(d)
            },
            None => None,
        }
    }

    /// The grid with rows and columns exchanged: entry (`j`, `i`) of the result is entry
    /// (`i`, `j`) of `self`, which is left as it is.
    pub fn transpose(&self) -> (r: Matrix<T>)
        requires
            self.wf(),
        ensures
            r.wf(),
            r.rows() == self.cols(),
            r.cols() == self.rows(),
            r@ == transposed(self@, self.rows(), self.cols()),
            forall|i: int, j: int| 0 <= i < self.rows() && 0 <= j < self.cols() ==> #[trigger] r@[j][i] == self@[i][j],
    {
        let mut content: Vec<Vec<T>> = Vec::new();
        let mut j: usize = 0;
        while j < self.column
            invariant
                self.wf(),
                j <= self.column,
                content@.len() == j,
                forall|b: int| 0 <= b < j ==> (#[trigger] content@[b])@ == Seq::new(self.row as nat, |a: int| self@[a][b]),
            decreases self.column - j,
        {
            let mut line: Vec<T> = Vec::new();
            let mut i: usize = 0;
            while i < self.row
                invariant
                    self.wf(),
                    j < self.column,
                    i <= self.row,
                    line@ == Seq::new(i as nat, |a: int| self@[a][j as int]),
                decreases self.row - i,
            {
                assert(self@[i as int] == self.content@[i as int]@);
                line.push(self.content[i][j]);
                i = i + 1;
            }
            content.push(line);
            j = j + 1;
        }
        let r = Matrix { row: self.column, column: self.row, content };
        assert(forall|b: int| 0 <= b < self.column ==> #[trigger] r@[b] == content@[b]@);
        assert(r@ =~= transposed(self@, self.rows(), self.cols()));
        r
    }
}

/// Replacing one entry of a grid keeps its shape.
pub proof fn lemma_entry_update_keeps_shape<T>(v: Seq<Seq<T>>, r: nat, c: nat, i: int, j: int, x: T)
    requires
        shaped(v, r, c),
        0 <= i < r,
        0 <= j < c,
    ensures
        shaped(v.update(i, v[i].update(j, x)), r, c),
{
    let w = v.update(i, v[i].update(j, x));
    assert forall|a: int| 0 <= a < r implies (#[trigger] w[a]).len() == c by {
        if a != i {
            assert(w[a] == v[a]);
        }
    }
}

/// The grid of `c` rows and `r` columns whose entry (`j`, `i`) is entry (`i`, `j`) of `v`.
pub open spec fn transposed<T>(v: Seq<Seq<T>>, r: nat, c: nat) -> Seq<Seq<T>> {
    Seq::new(c, |j: int| Seq::new(r, |i: int| v[i][j]))
}

/// Transposing twice gives back the grid one started from: for any grid of `r` rows
/// and `c` columns, the transpose of its transpose is the grid itself.
pub proof fn lemma_transpose_involution<T>(v: Seq<Seq<T>>, r: nat, c: nat)
    requires
        shaped(v, r, c),
    ensures
        shaped(transposed(v, r, c), c, r),
        transposed(transposed(v, r, c), c, r) == v,
{
    let t = transposed(v, r, c);
    let tt = transposed(t, c, r);
    assert forall|i: int| 0 <= i < r implies #[trigger] tt[i] == v[i] by {
        assert(tt[i] =~= v[i]);
    }
    assert(tt =~= v);
}

/// The `n` x `n` grid with `one` on the diagonal and `zero` elsewhere.
pub open spec fn identity_grid<T>(n: nat, zero: T, one: T) -> Seq<Seq<T>> {
    Seq::new(n, |i: int| Seq::new(n, |j: int| if i == j { one } else { zero }))
}

/// In the Leibniz expansion of an identity grid, the summand for the identity ordering
/// has sign 1 and every factor `one`, and every other summand has a factor `zero`; so
/// the determinant of an identity grid is `one`.
pub proof fn lemma_identity_expansion<T>(n: nat, zero: T, one: T, t: LeibnizTerm<T>)
    requires
        n <= i32::MAX,
        is_leibniz_term(identity_grid(n, zero, one), n, t),
    ensures
        t.order@ == indices(n) ==> t.sign == 1 && t.factors@ == Seq::new(n, |c: int| one),
        t.order@ != indices(n) ==> exists|c: int| 0 <= c < n && #[trigger] t.factors@[c] == zero,
{
    let g = identity_grid(n, zero, one);
    let o = t.order@;
    if o == indices(n) {
        lemma_increasing_no_inversions(o);
        assert(t.factors@ =~= Seq::new(n, |c: int| one));
    } else {
        assert(o.len() == n);
        assert(!(o =~= indices(n)));
        let c = choose|c: int| 0 <= c < n && o[c] != indices(n)[c];
        assert(indices(n).contains(o[c]));
        let m = choose|m: int| 0 <= m < n && indices(n)[m] == o[c];
        assert(t.factors@[c] == g[o[c] as int][c]);
        assert(t.factors@[c] == zero);
    }
}

} // verus!
