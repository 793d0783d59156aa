//! Transition statistics over execution paths: how often each address was
//! followed by each other address, and which addresses followed which.

use crate::profile::lemma_product_fits;
use ndarray::Array2;
use std::collections::HashMap;
use vstd::prelude::*;

verus! {

broadcast use vstd::std_specs::hash::group_hash_axioms;

/// A matrix of counts, kept in an `ndarray::Array2`.
#[verifier::external_body]
pub struct CountMatrix {
    inner: Array2<u64>,
}

/// The counts that the matrix holds, row by row.
pub uninterp spec fn cells(matrix: CountMatrix) -> Seq<Seq<u64>>;

/// `Array2::zeros` of ndarray: a square matrix of `n` rows that holds 0
/// everywhere. The outside function panics where the number of cells does
/// not fit; the bound keeps the matrix's bytes within what can be allocated.
#[verifier::external_body]
fn matrix_zeros(n: usize) -> (matrix: CountMatrix)
    requires
        8 * n * n <= isize::MAX,
    ensures
        cells(matrix) == Seq::new(n as nat, |i: int| Seq::new(n as nat, |j: int| 0u64)),
{
    CountMatrix { inner: Array2::zeros((n, n)) }
}

/// `nrows` of ndarray: the number of rows.
#[verifier::external_body]
fn matrix_rows(matrix: &CountMatrix) -> (n: usize)
    ensures
        n == cells(*matrix).len(),
{
    matrix.inner.nrows()
}

/// Indexing of ndarray with a pair of indices: the cell in row `i`, column
/// `j`. The outside function panics on an index out of bounds.
#[verifier::external_body]
fn matrix_get(matrix: &CountMatrix, i: usize, j: usize) -> (count: u64)
    requires
        i < cells(*matrix).len(),
        j < cells(*matrix)[i as int].len(),
    ensures
        count == cells(*matrix)[i as int][j as int],
{
    matrix.inner[[i, j]]
}

/// Assignment through ndarray's indexing with a pair of indices: writes the
/// cell in row `i`, column `j`, and no other. The outside function panics on
/// an index out of bounds.
#[verifier::external_body]
fn matrix_set(matrix: &mut CountMatrix, i: usize, j: usize, count: u64)
    requires
        i < cells(*old(matrix)).len(),
        j < cells(*old(matrix))[i as int].len(),
    ensures
        cells(*final(matrix)) == cells(*old(matrix)).update(
            i as int,
            cells(*old(matrix))[i as int].update(j as int, count),
        ),
{
    matrix.inner[[i, j]] = count;
}

/// The matrix has `n` rows of `n` cells.
pub open spec fn square(rows: Seq<Seq<u64>>, n: nat) -> bool {
    rows.len() == n && forall|i: int| 0 <= i < n ==> (#[trigger] rows[i]).len() == n
}

/// A count after one more observation; the largest count stays.
pub open spec fn bump64(c: u64) -> u64 {
    if c < u64::MAX {
        (c + 1) as u64
    } else {
        c
    }
}

/// The sum of the first `n` counts of a row.
pub open spec fn row_total(row: Seq<u64>, n: int) -> nat
    decreases n,
{
    if n <= 0 {
        0
    } else {
        row_total(row, n - 1) + row[n - 1] as nat
    }
}

/// The addresses recorded as following `from`.
pub open spec fn followers(graph: Map<usize, Seq<usize>>, from: usize) -> Seq<usize> {
    if graph.contains_key(from) {
        graph[from]
    } else {
        Seq::empty()
    }
}

/// The statistics as mathematics: the transition counts and, for each
/// address, the addresses that followed it, in the order observed.
pub struct Statistics {
    pub counts: Seq<Seq<u64>>,
    pub graph: Map<usize, Seq<usize>>,
}

/// The statistics after one more transition from `from` to `to`.
pub open spec fn with_transition(s: Statistics, from: usize, to: usize) -> Statistics {
    Statistics {
        counts: s.counts.update(
            from as int,
            s.counts[from as int].update(to as int, bump64(s.counts[from as int][to as int])),
        ),
        graph: s.graph.insert(from, followers(s.graph, from).push(to)),
    }
}

/// The statistics after the transitions of a path: one from each address of
/// the path to the next.
pub open spec fn with_path(s: Statistics, history: Seq<usize>) -> Statistics
    decreases history.len(),
{
    if history.len() < 2 {
        s
    } else {
        with_transition(
            with_path(s, history.drop_last()),
            history[history.len() - 2],
            history[history.len() - 1],
        )
    }
}

/// The rows among the first `n` whose mean count lies below the threshold.
pub open spec fn quiet_rows(counts: Seq<Seq<u64>>, threshold: u64, n: int) -> Seq<usize>
    decreases n,
{
    if n <= 0 {
        Seq::empty()
    } else {
        let before = quiet_rows(counts, threshold, n - 1);
        if row_total(counts[n - 1], counts[n - 1].len() as int) < threshold * counts[n - 1].len() {
            before.push((n - 1) as usize)
        } else {
            before
        }
    }
}

/// The rows among the first `n` whose mean count lies below the fraction
/// `numerator / denominator`: a row is quiet when its sum times the
/// denominator lies below the numerator times the row's length.
pub open spec fn quiet_rows_below(
    counts: Seq<Seq<u64>>,
    numerator: u64,
    denominator: u64,
    n: int,
) -> Seq<usize>
    decreases n,
{
    if n <= 0 {
        Seq::empty()
    } else {
        let before = quiet_rows_below(counts, numerator, denominator, n - 1);
        if row_total(counts[n - 1], counts[n - 1].len() as int) * denominator < numerator
            * counts[n - 1].len() {
            before.push((n - 1) as usize)
        } else {
            before
        }
    }
}

/// A whole threshold is the fraction with that numerator over 1.
pub proof fn lemma_whole_threshold(counts: Seq<Seq<u64>>, threshold: u64, n: int)
    ensures
        quiet_rows_below(counts, threshold, 1, n) == quiet_rows(counts, threshold, n),
    decreases n,
{
    if n > 0 {
        lemma_whole_threshold(counts, threshold, n - 1);
    }
}

/// A product with a positive factor lies below a bound exactly when the
/// bound is positive and the other factor is at most the bound's
/// predecessor divided by that factor.
proof fn lemma_below_by_division(a: int, d: int, bound: int)
    requires
        0 <= a,
        0 < d,
        0 <= bound,
    ensures
        a * d < bound <==> bound > 0 && a <= (bound - 1) / d,
{
    if bound > 0 {
        let x = bound - 1;
        vstd::arithmetic::div_mod::lemma_fundamental_div_mod(x, d);
        vstd::arithmetic::div_mod::lemma_mod_bound(x, d);
        let q = x / d;
        assert(x == d * q + x % d);
        if a <= q {
            assert(a * d <= q * d) by (nonlinear_arith)
                requires
                    a <= q,
                    0 < d,
            ;
            assert(q * d == d * q) by (nonlinear_arith);
        } else {
            assert(a * d >= (q + 1) * d) by (nonlinear_arith)
                requires
                    a >= q + 1,
                    0 < d,
            ;
            assert((q + 1) * d == d * q + d) by (nonlinear_arith);
        }
    } else {
        assert(a * d >= 0) by (nonlinear_arith)
            requires
                0 <= a,
                0 < d,
        ;
    }
}

/// What introduces a suggestion.
pub open spec fn suggestion_head() -> Seq<char> {
    "; AI SUGGESTION: Remove redundant instruction\n; "@
}

/// Whether the statistics suggest to remove the line at `pc`: fewer than two
/// addresses followed it, and no transition started from it.
pub open spec fn suggests_removal(s: Statistics, pc: int) -> bool {
    followers(s.graph, pc as usize).len() < 2 && row_total(
        s.counts[pc],
        s.counts[pc].len() as int,
    ) == 0
}

/// The line at `pc` as the suggestions give it back.
pub open spec fn suggested(s: Statistics, pc: int, line: Seq<char>) -> Seq<char> {
    if suggests_removal(s, pc) {
        suggestion_head() + line
    } else {
        line
    }
}

/// Transition statistics for a program of a given size.
pub struct AIOptimizer {
    pub pattern_matrix: CountMatrix,
    pub execution_graph: HashMap<usize, Vec<usize>>,
}

impl View for AIOptimizer {
    type V = Statistics;

    open spec fn view(&self) -> Statistics {
        Statistics {
            counts: cells(self.pattern_matrix),
            graph: Map::new(
                |a: usize| self.execution_graph@.contains_key(a),
                |a: usize| self.execution_graph@[a]@,
            ),
        }
    }
}

impl AIOptimizer {
    /// The matrix is square.
    pub open spec fn wf(&self) -> bool {
        square(self@.counts, self@.counts.len())
    }

    /// Empty statistics for a program of `program_size` addresses.
    pub fn new(program_size: usize) -> (optimizer: Self)
        requires
            8 * program_size * program_size <= isize::MAX,
        ensures
            optimizer.wf(),
            optimizer@.counts == Seq::new(
                program_size as nat,
                |i: int| Seq::new(program_size as nat, |j: int| 0u64),
            ),
            optimizer@.graph == Map::<usize, Seq<usize>>::empty(),
    {
        let optimizer = AIOptimizer {
            pattern_matrix: matrix_zeros(program_size),
            execution_graph: HashMap::new(),
        };
        assert(optimizer@.graph =~= Map::<usize, Seq<usize>>::empty());
        optimizer
    }

    /// The number of addresses that the statistics cover.
    pub fn size(&self) -> (n: usize)
        ensures
            n == self@.counts.len(),
    {
        matrix_rows(&self.pattern_matrix)
    }

    /// How often `from` was followed by `to`.
    pub fn transition_count(&self, from: usize, to: usize) -> (count: u64)
        requires
            self.wf(),
            from < self@.counts.len(),
            to < self@.counts.len(),
        ensures
            count == self@.counts[from as int][to as int],
    {
        matrix_get(&self.pattern_matrix, from, to)
    }

    /// The sum of the counts of the transitions that start at `from`.
    pub fn row_sum(&self, from: usize) -> (total: u128)
        requires
            self.wf(),
            from < self@.counts.len(),
        ensures
            total == row_total(self@.counts[from as int], self@.counts.len() as int),
    {
        let n: usize = self.size();
        let mut total: u128 = 0;
        let mut j: usize = 0;
        while j < n
            invariant
                self.wf(),
                from < n,
                n == self@.counts.len(),
                j <= n,
                total == row_total(self@.counts[from as int], j as int),
                total <= j * u64::MAX,
            decreases n - j,
        {
            let count: u64 = matrix_get(&self.pattern_matrix, from, j);
            proof {
                assert((j + 1) * u64::MAX == j * u64::MAX + u64::MAX) by (nonlinear_arith);
                lemma_product_fits(j as nat, u64::MAX as nat);
            }
            total = total + count as u128;
            j = j + 1;
        }
        total
    }

    /// Records one transition.
    fn record(&mut self, from: usize, to: usize)
        requires
            old(self).wf(),
            from < old(self)@.counts.len(),
            to < old(self)@.counts.len(),
        ensures
            final(self).wf(),
            final(self)@ == with_transition(old(self)@, from, to),
            final(self)@.counts.len() == old(self)@.counts.len(),
    {
        let count: u64 = matrix_get(&self.pattern_matrix, from, to);
        let next: u64 = if count < u64::MAX {
            count + 1
        } else {
            count
        };
        matrix_set(&mut self.pattern_matrix, from, to, next);
        let mut edges: Vec<usize> = match self.execution_graph.remove(&from) {
            Some(edges) => edges,
            None => Vec::new(),
        };
        edges.push(to);
        self.execution_graph.insert(from, edges);
        assert(self@.graph =~= with_transition(old(self)@, from, to).graph);
    }

    /// Records the transitions of a path: one from each address of the path
    /// to the next.
    pub fn analyze_execution_path(&mut self, history: &Vec<usize>)
        requires
            old(self).wf(),
            forall|i: int| 0 <= i < history@.len() ==> history@[i] < old(self)@.counts.len(),
        ensures
            final(self).wf(),
            final(self)@ == with_path(old(self)@, history@),
            final(self)@.counts.len() == old(self)@.counts.len(),
    {
        if history.len() < 2 {
            return ;
        }
        let mut k: usize = 1;
        assert(with_path(old(self)@, history@.take(1)) == old(self)@);
        while k < history.len()
            invariant
                1 <= k <= history.len(),
                self.wf(),
                self@.counts.len() == old(self)@.counts.len(),
                forall|i: int| 0 <= i < history@.len() ==> history@[i] < old(self)@.counts.len(),
                self@ == with_path(old(self)@, history@.take(k as int)),
            decreases history.len() - k,
        {
            proof {
                assert(history@.take(k + 1).drop_last() =~= history@.take(k as int));
            }
            self.record(history[k - 1], history[k]);
            k = k + 1;
        }
        assert(history@.take(k as int) =~= history@);
    }

    /// The addresses whose transitions have a mean count below the
    /// threshold, in ascending order.
    pub fn find_redundant_blocks(&self, threshold: u64) -> (blocks: Vec<usize>)
        requires
            self.wf(),
        ensures
            blocks@ == quiet_rows(self@.counts, threshold, self@.counts.len() as int),
    {
        proof {
            lemma_whole_threshold(self@.counts, threshold, self@.counts.len() as int);
        }
        self.find_redundant_blocks_below(threshold, 1)
    }

    /// The addresses whose transitions have a mean count below the fraction
    /// `numerator / denominator`, in ascending order.
    pub fn find_redundant_blocks_below(&self, numerator: u64, denominator: u64) -> (blocks: Vec<
        usize,
    >)
        requires
            self.wf(),
            denominator > 0,
        ensures
            blocks@ == quiet_rows_below(
                self@.counts,
                numerator,
                denominator,
                self@.counts.len() as int,
            ),
    {
        let n: usize = self.size();
        let mut blocks: Vec<usize> = Vec::new();
        let mut i: usize = 0;
        while i < n
            invariant
                self.wf(),
                denominator > 0,
                n == self@.counts.len(),
                i <= n,
                blocks@ == quiet_rows_below(self@.counts, numerator, denominator, i as int),
            decreases n - i,
        {
            let total: u128 = self.row_sum(i);
            proof {
                lemma_product_fits(numerator as nat, n as nat);
            }
            let bound: u128 = numerator as u128 * n as u128;
            let quiet: bool = bound > 0 && total <= (bound - 1) / denominator as u128;
            proof {
                lemma_below_by_division(total as int, denominator as int, bound as int);
            }
            if quiet {
                blocks.push(i);
            }
            i = i + 1;
        }
        blocks
    }

    /// The program with a suggestion in front of each line that the
    /// statistics would remove; the other lines as they are.
    pub fn suggest_optimizations(&self, program: &Vec<String>) -> (out: Vec<String>)
        requires
            self.wf(),
            program@.len() <= self@.counts.len(),
        ensures
            out@.len() == program@.len(),
            forall|pc: int|
                0 <= pc < program@.len() ==> (#[trigger] out@[pc])@ == suggested(
                    self@,
                    pc,
                    program@[pc]@,
                ),
    {
        let mut out: Vec<String> = Vec::new();
        let mut pc: usize = 0;
        while pc < program.len()
            invariant
                self.wf(),
                program@.len() <= self@.counts.len(),
                pc <= program.len(),
                out@.len() == pc,
                forall|i: int|
                    0 <= i < pc ==> (#[trigger] out@[i])@ == suggested(self@, i, program@[i]@),
            decreases program.len() - pc,
        {
            let connectivity: usize = match self.execution_graph.get(&pc) {
                Some(edges) => edges.len(),
                None => 0,
            };
            let total: u128 = self.row_sum(pc);
            let line: String = if connectivity < 2 && total == 0 {
                let head: String = "; AI SUGGESTION: Remove redundant instruction\n; ".to_owned();
                head.concat(program[pc].as_str())
            } else {
                program[pc].clone()
            };
            out.push(line);
            pc = pc + 1;
        }
        out
    }
}

} // verus!
