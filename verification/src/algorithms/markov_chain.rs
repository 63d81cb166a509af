use vstd::prelude::*;

use super::{
    AlgorithmStep, CompressedData, CompressionAlgorithm, CompressionResult, Metadata, StepState,
};
use crate::text::{read_utf8_lossy, utf8_lossy};

verus! {

/// The number of adjacent pairs of `s` whose first character is `a` and whose second is `b`.
pub open spec fn pair_count(s: Seq<char>, a: char, b: char) -> nat
    decreases s.len(),
{
    if s.len() < 2 {
        0
    } else {
        pair_count(s.drop_last(), a, b) + (if s[s.len() - 2] == a && s[s.len() - 1] == b {
            1nat
        } else {
            0nat
        })
    }
}

/// The number of adjacent pairs in a text of `n` characters.
pub open spec fn pair_total(n: nat) -> nat {
    if n == 0 {
        0
    } else {
        (n - 1) as nat
    }
}

/// The sum of a row of counts.
pub open spec fn row_sum(row: Seq<u64>) -> nat
    decreases row.len(),
{
    if row.len() == 0 {
        0
    } else {
        row_sum(row.drop_last()) + row.last() as nat
    }
}

/// The sum of all counts of a matrix.
pub open spec fn matrix_sum(m: Seq<Seq<u64>>) -> nat
    decreases m.len(),
{
    if m.len() == 0 {
        0
    } else {
        matrix_sum(m.drop_last()) + row_sum(m.last())
    }
}

/// The rows of a matrix, each taken by its view.
pub open spec fn rows_view(m: Seq<Vec<u64>>) -> Seq<Seq<u64>> {
    Seq::new(m.len(), |i: int| m[i]@)
}

/// `syms` holds distinct characters in increasing order.
pub open spec fn strictly_increasing(syms: Seq<char>) -> bool {
    forall|i: int, j: int| 0 <= i < j < syms.len() ==> syms[i] < syms[j]
}

/// `syms` are the distinct characters of `text`, in increasing order.
pub open spec fn symbols_of(text: Seq<char>, syms: Seq<char>) -> bool {
    &&& strictly_increasing(syms)
    &&& forall|c: char| syms.contains(c) <==> text.contains(c)
}

/// `m` is a square matrix with one row and one column per symbol.
pub open spec fn is_square(m: Seq<Seq<u64>>, n: nat) -> bool {
    &&& m.len() == n
    &&& forall|i: int| 0 <= i < n ==> #[trigger] m[i].len() == n
}

/// `counts[i][j]` is how often `syms[i]` is directly followed by `syms[j]` in `text`.
pub open spec fn counts_of(text: Seq<char>, syms: Seq<char>, counts: Seq<Seq<u64>>) -> bool {
    &&& is_square(counts, syms.len())
    &&& forall|i: int, j: int|
        #![trigger counts[i][j]]
        0 <= i < syms.len() && 0 <= j < syms.len() ==> counts[i][j] == pair_count(
            text,
            syms[i],
            syms[j],
        )
}


/// The cells `(i, j)` with `j < k` of row `i` whose count is not zero, by increasing `j`.
pub open spec fn row_cells(row: Seq<u64>, i: int, k: nat) -> Seq<(int, int)>
    decreases k,
{
    if k == 0 {
        Seq::empty()
    } else {
        let prev = row_cells(row, i, (k - 1) as nat);
        if row[k - 1] > 0 {
            prev.push((i, k - 1))
        } else {
            prev
        }
    }
}

/// The cells of the first `k` rows of `m` whose count is not zero, row by row.
pub open spec fn matrix_cells(m: Seq<Seq<u64>>, k: nat) -> Seq<(int, int)>
    decreases k,
{
    if k == 0 {
        Seq::empty()
    } else {
        matrix_cells(m, (k - 1) as nat) + row_cells(m[k - 1], k - 1, m[k - 1].len())
    }
}

/// `step` is the step numbered `k + 1` of building a model, and reports the cell `cell`
/// of the count matrix `counts` between the symbols `syms`.
#[verifier::opaque]
pub open spec fn is_transition_step(
    step: AlgorithmStep,
    k: int,
    cell: (int, int),
    syms: Seq<char>,
    counts: Seq<Seq<u64>>,
) -> bool {
    &&& step.step_number == k + 1
    &&& step.state matches StepState::MarkovTransition {
        from_symbol,
        to_symbol,
        count,
        row_total,
        count_snapshot,
        symbols,
    } && from_symbol == syms[cell.0] && to_symbol == syms[cell.1] && count == counts[cell.0][cell.1]
        && row_total == row_sum(counts[cell.0]) && rows_view(count_snapshot@) == counts && symbols@
        == syms
}

/// `steps` report, one by one and row by row, the cells of `counts` that are not zero.
pub open spec fn transition_steps(steps: Seq<AlgorithmStep>, syms: Seq<char>, counts: Seq<Seq<u64>>) -> bool {
    let cells = matrix_cells(counts, counts.len());
    &&& steps.len() == cells.len()
    &&& forall|k: int| 0 <= k < steps.len() ==> is_transition_step(#[trigger] steps[k], k, cells[k], syms, counts)
}

/// `symbols` and `counts` are the model of `text`, and `steps` report its non-zero counts.
pub open spec fn is_model_of(
    text: Seq<char>,
    symbols: Seq<char>,
    counts: Seq<Seq<u64>>,
    steps: Seq<AlgorithmStep>,
) -> bool {
    &&& symbols_of(text, symbols)
    &&& counts_of(text, symbols, counts)
    &&& matrix_sum(counts) == pair_total(text.len())
    &&& transition_steps(steps, symbols, counts)
}

proof fn lemma_row_sum_update(row: Seq<u64>, j: int, v: u64)
    requires
        0 <= j < row.len(),
    ensures
        row_sum(row.update(j, v)) == row_sum(row) - row[j] + v,
        row[j] <= row_sum(row),
    decreases row.len(),
{
    let r2 = row.update(j, v);
    if j == row.len() - 1 {
        assert(r2.drop_last() =~= row.drop_last());
    } else {
        lemma_row_sum_update(row.drop_last(), j, v);
        assert(r2.drop_last() =~= row.drop_last().update(j, v));
    }
}

proof fn lemma_matrix_sum_update(m: Seq<Seq<u64>>, i: int, r: Seq<u64>)
    requires
        0 <= i < m.len(),
    ensures
        matrix_sum(m.update(i, r)) == matrix_sum(m) - row_sum(m[i]) + row_sum(r),
        row_sum(m[i]) <= matrix_sum(m),
    decreases m.len(),
{
    let m2 = m.update(i, r);
    if i == m.len() - 1 {
        assert(m2.drop_last() =~= m.drop_last());
    } else {
        lemma_matrix_sum_update(m.drop_last(), i, r);
        assert(m2.drop_last() =~= m.drop_last().update(i, r));
    }
}


proof fn lemma_row_prefix_sum(row: Seq<u64>, k: int)
    requires
        0 <= k <= row.len(),
    ensures
        row_sum(row.take(k)) <= row_sum(row),
    decreases row.len(),
{
    if k == row.len() {
        assert(row.take(k) =~= row);
    } else {
        lemma_row_prefix_sum(row.drop_last(), k);
        assert(row.take(k) =~= row.drop_last().take(k));
    }
}

proof fn lemma_matrix_prefix_sum(m: Seq<Seq<u64>>, k: int)
    requires
        0 <= k < m.len(),
    ensures
        matrix_sum(m.take(k)) + row_sum(m[k]) <= matrix_sum(m),
    decreases m.len(),
{
    if k == m.len() - 1 {
        assert(m.drop_last() =~= m.take(k));
    } else {
        lemma_matrix_prefix_sum(m.drop_last(), k);
        assert(m.take(k) =~= m.drop_last().take(k));
    }
}

proof fn lemma_row_cells_bound(row: Seq<u64>, i: int, k: nat)
    requires
        k <= row.len(),
    ensures
        row_cells(row, i, k).len() <= row_sum(row.take(k as int)),
    decreases k,
{
    if k > 0 {
        lemma_row_cells_bound(row, i, (k - 1) as nat);
        assert(row.take(k as int).drop_last() =~= row.take(k - 1));
    }
}

proof fn lemma_matrix_cells_bound(m: Seq<Seq<u64>>, k: nat)
    requires
        k <= m.len(),
    ensures
        matrix_cells(m, k).len() <= matrix_sum(m.take(k as int)),
    decreases k,
{
    if k > 0 {
        lemma_matrix_cells_bound(m, (k - 1) as nat);
        lemma_row_cells_bound(m[k - 1], k - 1, m[k - 1].len());
        assert(m[k - 1].take(m[k - 1].len() as int) =~= m[k - 1]);
        assert(m.take(k as int).drop_last() =~= m.take(k - 1));
    }
}

proof fn lemma_push_step(
    steps: Seq<AlgorithmStep>,
    st: AlgorithmStep,
    cells: Seq<(int, int)>,
    cell: (int, int),
    syms: Seq<char>,
    m: Seq<Seq<u64>>,
)
    requires
        steps.len() == cells.len(),
        forall|k: int| 0 <= k < steps.len() ==> is_transition_step(#[trigger] steps[k], k, cells[k], syms, m),
        is_transition_step(st, steps.len() as int, cell, syms, m),
    ensures
        forall|k: int|
            0 <= k < steps.len() + 1 ==> is_transition_step(
                #[trigger] steps.push(st)[k],
                k,
                cells.push(cell)[k],
                syms,
                m,
            ),
{
    assert forall|k: int| 0 <= k < steps.len() + 1 implies is_transition_step(
        #[trigger] steps.push(st)[k],
        k,
        cells.push(cell)[k],
        syms,
        m,
    ) by {
        if k < steps.len() {
            assert(steps.push(st)[k] == steps[k]);
            assert(cells.push(cell)[k] == cells[k]);
        }
    }
}

/// A copy of `v`.
fn copy_vec<T: Copy>(v: &Vec<T>) -> (r: Vec<T>)
    ensures
        r@ == v@,
{
    let mut r: Vec<T> = Vec::new();
    let mut i: usize = 0;
    while i < v.len()
        invariant
            i <= v@.len(),
            r@ == v@.take(i as int),
        decreases v@.len() - i,
    {
        r.push(v[i]);
        i += 1;
        assert(r@ =~= v@.take(i as int));
    }
    assert(v@.take(v@.len() as int) =~= v@);
    r
}

/// A copy of the matrix `m`.
fn copy_matrix(m: &Vec<Vec<u64>>) -> (r: Vec<Vec<u64>>)
    ensures
        rows_view(r@) == rows_view(m@),
{
    let mut r: Vec<Vec<u64>> = Vec::new();
    let mut i: usize = 0;
    while i < m.len()
        invariant
            i <= m@.len(),
            r@.len() == i,
            forall|k: int| 0 <= k < i ==> #[trigger] r@[k]@ == m@[k]@,
        decreases m@.len() - i,
    {
        r.push(copy_vec(&m[i]));
        i += 1;
    }
    assert(rows_view(r@) =~= rows_view(m@));
    r
}

/// A model of which character follows which in a text.
#[derive(Debug, Clone)]
pub struct MarkovChainModel {
    pub order: usize,
    /// The distinct characters of the text, in increasing order.
    pub symbols: Vec<char>,
    /// `transition_counts[i][j]` counts the places where `symbols[i]` is followed by `symbols[j]`.
    pub transition_counts: Vec<Vec<u64>>,
}

impl MarkovChainModel {
    /// The symbols are sorted and distinct, the count matrix is square, and its total fits in a `u64`.
    pub open spec fn wf(&self) -> bool {
        &&& strictly_increasing(self.symbols@)
        &&& is_square(rows_view(self.transition_counts@), self.symbols@.len())
        &&& matrix_sum(rows_view(self.transition_counts@)) <= u64::MAX
    }

    pub fn new(order: usize) -> (m: Self)
        ensures
            m.order == order,
            m.symbols@ == Seq::<char>::empty(),
            m.transition_counts@ == Seq::<Vec<u64>>::empty(),
            m.wf(),
    {
        let m = MarkovChainModel { order, symbols: Vec::new(), transition_counts: Vec::new() };
        assert(rows_view(m.transition_counts@) =~= Seq::<Seq<u64>>::empty());
        m
    }

    /// Where `c` stands in the sorted `syms`: `Ok` with its index, or `Err` with the index
    /// at which it would be inserted.
    fn search_symbol(syms: &Vec<char>, c: char) -> (r: Result<usize, usize>)
        requires
            strictly_increasing(syms@),
        ensures
            match r {
                Ok(i) => i < syms@.len() && syms@[i as int] == c,
                Err(p) => {
                    &&& p <= syms@.len()
                    &&& !syms@.contains(c)
                    &&& forall|i: int| 0 <= i < p ==> #[trigger] syms@[i] < c
                    &&& forall|i: int| p <= i < syms@.len() ==> c < #[trigger] syms@[i]
                },
            },
    {
        let mut lo: usize = 0;
        let mut hi: usize = syms.len();
        while lo < hi
            invariant
                lo <= hi <= syms@.len(),
                strictly_increasing(syms@),
                forall|i: int| 0 <= i < lo ==> #[trigger] syms@[i] < c,
                forall|i: int| hi <= i < syms@.len() ==> c < #[trigger] syms@[i],
            decreases hi - lo,
        {
            let mid = lo + (hi - lo) / 2;
            let m = syms[mid];
            if m == c {
                return Ok(mid);
            } else if m < c {
                lo = mid + 1;
            } else {
                hi = mid;
            }
        }
        Err(lo)
    }

    /// The index of `c` in the sorted `syms`, which holds it.
    fn index_of_symbol(syms: &Vec<char>, c: char) -> (i: usize)
        requires
            strictly_increasing(syms@),
            syms@.contains(c),
        ensures
            i < syms@.len(),
            syms@[i as int] == c,
    {
        match Self::search_symbol(syms, c) {
            Ok(i) => i,
            Err(_) => {
                proof {
                    assert(false);
                }
                0
            },
        }
    }

    /// The distinct characters of `chars`, in increasing order.
    fn collect_symbols(chars: &Vec<char>) -> (syms: Vec<char>)
        ensures
            symbols_of(chars@, syms@),
    {
        let mut syms: Vec<char> = Vec::new();
        let mut k: usize = 0;
        while k < chars.len()
            invariant
                k <= chars@.len(),
                symbols_of(chars@.take(k as int), syms@),
            decreases chars@.len() - k,
        {
            let c = chars[k];
            let ghost old_syms = syms@;
            let ghost next = chars@.take(k + 1);
            assert(next =~= chars@.take(k as int).push(c));
            match Self::search_symbol(&syms, c) {
                Ok(_) => {
                    assert forall|x: char| syms@.contains(x) <==> next.contains(x) by {
                        if next.contains(x) && x != c {
                            let w = choose|w: int| 0 <= w < k + 1 && next[w] == x;
                            assert(chars@.take(k as int)[w] == x);
                        }
                    }
                },
                Err(p) => {
                    syms.insert(p, c);
                    assert forall|i: int, j: int| 0 <= i < j < syms@.len() implies syms@[i] < syms@[j] by {
                        if j < p {
                            assert(syms@[i] == old_syms[i] && syms@[j] == old_syms[j]);
                        } else if j == p {
                            assert(syms@[i] == old_syms[i]);
                        } else if i < p {
                            assert(syms@[i] == old_syms[i] && syms@[j] == old_syms[j - 1]);
                        } else if i == p {
                            assert(syms@[j] == old_syms[j - 1]);
                        } else {
                            assert(syms@[i] == old_syms[i - 1] && syms@[j] == old_syms[j - 1]);
                        }
                    }
                    assert forall|x: char| syms@.contains(x) <==> next.contains(x) by {
                        if syms@.contains(x) {
                            let w = choose|w: int| 0 <= w < syms@.len() && syms@[w] == x;
                            if w != p {
                                if w < p {
                                    assert(old_syms[w] == x);
                                } else {
                                    assert(old_syms[w - 1] == x);
                                }
                                assert(old_syms.contains(x));
                                assert(chars@.take(k as int).contains(x));
                                let v = choose|v: int| 0 <= v < k && chars@.take(k as int)[v] == x;
                                assert(next[v] == x);
                            } else {
                                assert(next[k as int] == x);
                            }
                        }
                        if next.contains(x) {
                            let w = choose|w: int| 0 <= w < k + 1 && next[w] == x;
                            if w < k {
                                assert(chars@.take(k as int)[w] == x);
                                assert(chars@.take(k as int).contains(x));
                                assert(old_syms.contains(x));
                                let v = choose|v: int| 0 <= v < old_syms.len() && old_syms[v] == x;
                                if v < p {
                                    assert(syms@[v] == x);
                                } else {
                                    assert(syms@[v + 1] == x);
                                }
                            } else {
                                assert(syms@[p as int] == x);
                            }
                        }
                    }
                },
            }
            k += 1;
        }
        assert(chars@.take(chars@.len() as int) =~= chars@);
        syms
    }

    /// A row of `n` zero counts.
    fn zero_row(n: usize) -> (r: Vec<u64>)
        ensures
            r@.len() == n,
            row_sum(r@) == 0,
            forall|j: int| 0 <= j < n ==> #[trigger] r@[j] == 0,
    {
        let mut r: Vec<u64> = Vec::new();
        while r.len() < n
            invariant
                r@.len() <= n,
                row_sum(r@) == 0,
                forall|j: int| 0 <= j < r@.len() ==> #[trigger] r@[j] == 0,
            decreases n - r@.len(),
        {
            let ghost before = r@;
            r.push(0);
            assert(r@.drop_last() =~= before);
        }
        r
    }

    /// An `n` by `n` matrix of zero counts.
    fn zero_matrix(n: usize) -> (m: Vec<Vec<u64>>)
        ensures
            is_square(rows_view(m@), n as nat),
            matrix_sum(rows_view(m@)) == 0,
            forall|i: int, j: int|
                #![trigger rows_view(m@)[i][j]]
                0 <= i < n && 0 <= j < n ==> rows_view(m@)[i][j] == 0,
    {
        let mut m: Vec<Vec<u64>> = Vec::new();
        while m.len() < n
            invariant
                m@.len() <= n,
                forall|i: int| 0 <= i < m@.len() ==> #[trigger] m@[i]@.len() == n,
                matrix_sum(rows_view(m@)) == 0,
                forall|i: int, j: int|
                    #![trigger m@[i]@[j]]
                    0 <= i < m@.len() && 0 <= j < n ==> m@[i]@[j] == 0,
            decreases n - m@.len(),
        {
            let ghost before = m@;
            let r = Self::zero_row(n);
            m.push(r);
            assert(rows_view(m@).drop_last() =~= rows_view(before));
        }
        m
    }

    /// The transition counts of `chars` between its sorted distinct characters `syms`.
    fn count_transitions(chars: &Vec<char>, syms: &Vec<char>) -> (counts: Vec<Vec<u64>>)
        requires
            symbols_of(chars@, syms@),
        ensures
            counts_of(chars@, syms@, rows_view(counts@)),
            matrix_sum(rows_view(counts@)) == pair_total(chars@.len()),
    {
        let n = syms.len();
        let mut counts = Self::zero_matrix(n);
        if chars.len() < 2 {
            return counts;
        }
        let mut k: usize = 1;
        while k < chars.len()
            invariant
                1 <= k <= chars@.len(),
                symbols_of(chars@, syms@),
                n == syms@.len(),
                is_square(rows_view(counts@), n as nat),
                forall|a: int, b: int|
                    #![trigger rows_view(counts@)[a][b]]
                    0 <= a < n && 0 <= b < n ==> rows_view(counts@)[a][b] == pair_count(
                        chars@.take(k as int),
                        syms@[a],
                        syms@[b],
                    ),
                matrix_sum(rows_view(counts@)) == k - 1,
            decreases chars@.len() - k,
        {
            let prev = chars[k - 1];
            let cur = chars[k];
            assert(chars@.contains(prev) && chars@.contains(cur)) by {
                assert(chars@[k - 1] == prev && chars@[k as int] == cur);
            }
            let from = Self::index_of_symbol(syms, prev);
            let to = Self::index_of_symbol(syms, cur);
            let ghost rows = rows_view(counts@);
            let mut row: Vec<u64> = Vec::new();
            counts.set_and_swap(from, &mut row);
            assert(row@ == rows[from as int]);
            let v = row[to];
            proof {
                lemma_row_sum_update(rows[from as int], to as int, 0);
                lemma_matrix_sum_update(rows, from as int, rows[from as int].update(to as int, 0));
            }
            let nv = v + 1;
            row.set(to, nv);
            counts.set_and_swap(from, &mut row);
            proof {
                let new_row = rows[from as int].update(to as int, nv);
                lemma_row_sum_update(rows[from as int], to as int, nv);
                lemma_matrix_sum_update(rows, from as int, new_row);
                assert(rows_view(counts@) =~= rows.update(from as int, new_row));
                let next = chars@.take(k + 1);
                assert(next.drop_last() =~= chars@.take(k as int));
                assert(next[k - 1] == prev && next[k as int] == cur);
                assert forall|a: int, b: int| 0 <= a < n && 0 <= b < n implies #[trigger] rows_view(
                    counts@,
                )[a][b] == pair_count(next, syms@[a], syms@[b]) by {
                    if a != from {
                        assert(syms@[a] != syms@[from as int]);
                    }
                    if b != to {
                        assert(syms@[b] != syms@[to as int]);
                    }
                }
            }
            k += 1;
        }
        assert(chars@.take(chars@.len() as int) =~= chars@);
        counts
    }

    /// The sum of a row whose sum fits in a `u64`.
    fn sum_row(row: &Vec<u64>) -> (total: u64)
        requires
            row_sum(row@) <= u64::MAX,
        ensures
            total == row_sum(row@),
    {
        let mut total: u64 = 0;
        let mut j: usize = 0;
        while j < row.len()
            invariant
                j <= row@.len(),
                row_sum(row@) <= u64::MAX,
                total == row_sum(row@.take(j as int)),
            decreases row@.len() - j,
        {
            proof {
                assert(row@.take(j + 1).drop_last() =~= row@.take(j as int));
                lemma_row_prefix_sum(row@, j + 1);
            }
            total = total + row[j];
            j += 1;
        }
        assert(row@.take(row@.len() as int) =~= row@);
        total
    }

    /// The step numbered `number` that reports cell `(i, j)` of `counts`, whose row sums to `total`.
    fn transition_step(
        number: usize,
        syms: &Vec<char>,
        counts: &Vec<Vec<u64>>,
        i: usize,
        j: usize,
        total: u64,
    ) -> (step: AlgorithmStep)
        requires
            number >= 1,
            is_square(rows_view(counts@), syms@.len()),
            i < syms@.len(),
            j < syms@.len(),
            total == row_sum(rows_view(counts@)[i as int]),
        ensures
            is_transition_step(step, number - 1, (i as int, j as int), syms@, rows_view(counts@)),
    {
        let ghost m = rows_view(counts@);
        assert(counts@[i as int]@ == m[i as int]);
        let c = counts[i][j];
        let snapshot = copy_matrix(counts);
        let symbols = copy_vec(syms);
        let step = AlgorithmStep {
            step_number: number,
            state: StepState::MarkovTransition {
                from_symbol: syms[i],
                to_symbol: syms[j],
                count: c,
                row_total: total,
                count_snapshot: snapshot,
                symbols,
            },
        };
        proof {
            reveal(is_transition_step);
        }
        step
    }

    /// One step for each cell of `counts` that is not zero, row by row.
    fn transition_steps_of(syms: &Vec<char>, counts: &Vec<Vec<u64>>) -> (steps: Vec<AlgorithmStep>)
        requires
            is_square(rows_view(counts@), syms@.len()),
            matrix_sum(rows_view(counts@)) < usize::MAX,
        ensures
            transition_steps(steps@, syms@, rows_view(counts@)),
    {
        let ghost m = rows_view(counts@);
        let n = syms.len();
        let mut steps: Vec<AlgorithmStep> = Vec::new();
        let mut i: usize = 0;
        while i < n
            invariant
                i <= n,
                n == syms@.len(),
                m == rows_view(counts@),
                is_square(m, n as nat),
                matrix_sum(m) < usize::MAX,
                steps@.len() == matrix_cells(m, i as nat).len(),
                forall|k: int|
                    0 <= k < steps@.len() ==> is_transition_step(
                        #[trigger] steps@[k],
                        k,
                        matrix_cells(m, i as nat)[k],
                        syms@,
                        m,
                    ),
            decreases n - i,
        {
            let row = &counts[i];
            assert(row@ == m[i as int]);
            proof {
                lemma_matrix_prefix_sum(m, i as int);
                lemma_matrix_cells_bound(m, i as nat);
            }
            let total = Self::sum_row(row);
            let ghost before = matrix_cells(m, i as nat);
            let mut j: usize = 0;
            while j < n
                invariant
                    i < n,
                    j <= n,
                    n == syms@.len(),
                    m == rows_view(counts@),
                    is_square(m, n as nat),
                    row@ == m[i as int],
                    total == row_sum(m[i as int]),
                    before == matrix_cells(m, i as nat),
                    before.len() + row_sum(m[i as int]) <= matrix_sum(m),
                    matrix_sum(m) < usize::MAX,
                    steps@.len() == before.len() + row_cells(m[i as int], i as int, j as nat).len(),
                    forall|k: int|
                        0 <= k < steps@.len() ==> is_transition_step(
                            #[trigger] steps@[k],
                            k,
                            (before + row_cells(m[i as int], i as int, j as nat))[k],
                            syms@,
                            m,
                        ),
                decreases n - j,
            {
                let c = row[j];
                let ghost cells = row_cells(m[i as int], i as int, j as nat);
                let ghost next_cells = row_cells(m[i as int], i as int, (j + 1) as nat);
                proof {
                    lemma_row_cells_bound(m[i as int], i as int, (j + 1) as nat);
                    lemma_row_prefix_sum(m[i as int], j + 1);
                }
                if c > 0 {
                    let step = Self::transition_step(steps.len() + 1, syms, counts, i, j, total);
                    let ghost old_steps = steps@;
                    let ghost st = step;
                    steps.push(step);
                    assert(next_cells == cells.push((i as int, j as int)));
                    assert(before + next_cells =~= (before + cells).push((i as int, j as int)));
                    proof {
                        lemma_push_step(old_steps, st, before + cells, (i as int, j as int), syms@, m);
                    }
                } else {
                    assert(next_cells == cells);
                }
                j += 1;
            }
            assert(m[i as int].len() == n);
            assert(matrix_cells(m, (i + 1) as nat) == before + row_cells(m[i as int], i as int, n as nat));
            i += 1;
        }
        steps
    }

    /// Builds the model of `text`: its distinct characters in increasing order, and how often
    /// each is directly followed by each. Returns one step for each non-zero count, row by row.
    pub fn build_model(&mut self, text: &str) -> (steps: Vec<AlgorithmStep>)
        ensures
            final(self).order == old(self).order,
            final(self).wf(),
            is_model_of(
                text@,
                final(self).symbols@,
                rows_view(final(self).transition_counts@),
                steps@,
            ),
    {
        let mut chars: Vec<char> = Vec::new();
        for ch in it: text.chars()
            invariant
                it.seq() == text@,
                chars@ == it.seq().take(it.index()),
        {
            chars.push(ch);
            assert(chars@ =~= it.seq().take(it.index() + 1));
        }
        assert(chars@ =~= text@);
        let syms = Self::collect_symbols(&chars);
        let counts = Self::count_transitions(&chars, &syms);
        let steps = Self::transition_steps_of(&syms, &counts);
        self.symbols = syms;
        self.transition_counts = counts;
        steps
    }

    /// The index of `c` among the symbols, where it is one of them.
    pub fn symbol_index(&self, c: char) -> (r: Option<usize>)
        requires
            self.wf(),
        ensures
            match r {
                Some(i) => i < self.symbols@.len() && self.symbols@[i as int] == c,
                None => !self.symbols@.contains(c),
            },
    {
        match Self::search_symbol(&self.symbols, c) {
            Ok(i) => Some(i),
            Err(_) => None,
        }
    }

    /// How often `from` is directly followed by `to`; 0 where either is not a symbol.
    pub fn transition_count(&self, from: char, to: char) -> (r: u64)
        requires
            self.wf(),
        ensures
            forall|i: int, j: int|
                0 <= i < self.symbols@.len() && 0 <= j < self.symbols@.len() && self.symbols@[i]
                    == from && self.symbols@[j] == to ==> r == rows_view(
                    self.transition_counts@,
                )[i][j],
            !(self.symbols@.contains(from) && self.symbols@.contains(to)) ==> r == 0,
    {
        let ghost m = rows_view(self.transition_counts@);
        match (self.symbol_index(from), self.symbol_index(to)) {
            (Some(i), Some(j)) => {
                assert(self.transition_counts@[i as int]@ == m[i as int]);
                proof {
                    assert forall|a: int, b: int|
                        0 <= a < self.symbols@.len() && 0 <= b < self.symbols@.len()
                            && self.symbols@[a] == from && self.symbols@[b] == to implies a == i
                        && b == j by {
                        if a != i {
                            assert(self.symbols@[a] != self.symbols@[i as int]);
                        }
                        if b != j {
                            assert(self.symbols@[b] != self.symbols@[j as int]);
                        }
                    }
                }
                self.transition_counts[i][j]
            },
            _ => 0,
        }
    }

    /// How many transitions leave `from`; 0 where it is not a symbol.
    pub fn row_total(&self, from: char) -> (r: u64)
        requires
            self.wf(),
        ensures
            forall|i: int|
                0 <= i < self.symbols@.len() && self.symbols@[i] == from ==> r == row_sum(
                    rows_view(self.transition_counts@)[i],
                ),
            !self.symbols@.contains(from) ==> r == 0,
    {
        let ghost m = rows_view(self.transition_counts@);
        match self.symbol_index(from) {
            Some(i) => {
                assert(self.transition_counts@[i as int]@ == m[i as int]);
                proof {
                    lemma_matrix_sum_update(m, i as int, m[i as int]);
                    assert forall|a: int|
                        0 <= a < self.symbols@.len() && self.symbols@[a] == from implies a == i by {
                        if a != i {
                            assert(self.symbols@[a] != self.symbols@[i as int]);
                        }
                    }
                }
                Self::sum_row(&self.transition_counts[i])
            },
            None => 0,
        }
    }
}

/// `data`, `metadata` and `steps` are what `compress` reports for `input`: the input
/// unchanged, the model of the text that it holds as UTF-8 (each invalid sequence
/// replaced), and one step for each non-zero transition count.
pub open spec fn markov_compressed(
    input: Seq<u8>,
    data: Seq<u8>,
    metadata: Metadata,
    steps: Seq<AlgorithmStep>,
) -> bool {
    &&& data == input
    &&& metadata matches Metadata::Markov { counts, symbols } && is_model_of(
        utf8_lossy(input),
        symbols@,
        rows_view(counts@),
        steps,
    )
}

/// The Markov stage analyses and does not compress: the data that `compress` reports is its
/// input, so `decompress`, which hands the data back, restores the input.
pub proof fn lemma_markov_roundtrip(
    input: Seq<u8>,
    data: Seq<u8>,
    metadata: Metadata,
    steps: Seq<AlgorithmStep>,
)
    requires
        markov_compressed(input, data, metadata, steps),
    ensures
        data == input,
{
}

impl CompressionAlgorithm for MarkovChainModel {
    open spec fn compress_accepts(&self, input: Seq<u8>) -> bool {
        true
    }

    open spec fn decompress_accepts(&self, data: Seq<u8>) -> bool {
        true
    }

    fn compress(&self, input: &[u8]) -> (r: CompressionResult)
        ensures
            markov_compressed(input@, r.compressed_data.data@, r.compressed_data.metadata, r.steps@),
    {
        let text = read_utf8_lossy(input);
        let mut model = MarkovChainModel::new(self.order);
        let steps = model.build_model(text.as_str());
        let data = crate::bytes::copy_slice(input);
        let n = input.len();
        CompressionResult {
            compressed_data: CompressedData {
                data,
                metadata: Metadata::Markov { counts: model.transition_counts, symbols: model.symbols },
            },
            steps,
            original_size: n,
            compressed_size: n,
        }
    }

    fn decompress(&self, compressed: &CompressedData) -> (r: Result<Vec<u8>, String>)
        ensures
            r matches Ok(v) && v@ == compressed.data@,
    {
        Ok(crate::bytes::copy_slice(compressed.data.as_slice()))
    }

    fn name(&self) -> (n: &str)
        ensures
            n@ == "Markov Chain Probability Model"@,
    {
        "Markov Chain Probability Model"
    }
}

} // verus!
