//! The machine's optional observers. They watch the fetch-execute step and
//! keep statistics of their own; none of them changes what the state machine
//! does.

use crate::catalog::{TAG_HALT, TAG_NOP};
use crate::cpu::{MachineState, PatternCount, Ratio, CPU};
use crate::optimizer::{annotate_by_profile, annotated, par_map};
use crate::profile::{bump, bump_count, count_of, lookup, total_of};
use crate::text::string_views;
use vstd::prelude::*;

verus! {

broadcast use {
    vstd::std_specs::hash::group_hash_axioms,
    vstd::std_specs::vecdeque::group_vec_dequeue_axioms,
};

/// An address executed more often than this in one run is worn out.
pub const REDUNDANCY_THRESHOLD: usize = 5;

/// How many samples of a register are kept and judged.
pub const SAMPLE_WINDOW: usize = 10;

/// The advice that a register holds what is effectively a constant.
#[derive(Clone, Copy, Debug, PartialEq, Eq, Structural)]
pub struct Advisory {
    pub register: usize,
    /// The mean of the samples, rounded towards zero.
    pub constant: i32,
}

/// The execution context that a window of addresses stands for: the low
/// byte of each address.
pub open spec fn context_of(window: Seq<usize>) -> Seq<u8> {
    Seq::new(window.len(), |i: int| (window[i] % 256) as u8)
}

/// The database after execution was met in `context`: each entry for that
/// context counts one more.
pub open spec fn with_context(db: Seq<PatternCount>, context: Seq<u8>) -> Seq<PatternCount> {
    Seq::new(
        db.len(),
        |i: int|
            if db[i].pattern@ == context {
                PatternCount { pattern: db[i].pattern, count: bump(db[i].count) }
            } else {
                db[i]
            },
    )
}

/// No context has two entries.
pub open spec fn patterns_distinct(db: Seq<PatternCount>) -> bool {
    forall|i: int, j: int|
        0 <= i < j < db.len() ==> (#[trigger] db[i]).pattern@ != (#[trigger] db[j]).pattern@
}

/// The samples recorded for a register.
pub open spec fn samples_of(samples: Map<usize, Vec<i32>>, register: usize) -> Seq<i32> {
    if samples.contains_key(register) {
        samples[register]@
    } else {
        Seq::empty()
    }
}

/// The samples after one more: the newest joins at the back, and only the
/// most recent ones of the window stay.
pub open spec fn sampled(samples: Seq<i32>, value: i32) -> Seq<i32> {
    let all = samples.push(value);
    if all.len() > SAMPLE_WINDOW {
        all.skip(all.len() - SAMPLE_WINDOW)
    } else {
        all
    }
}

/// The sum of the samples.
pub open spec fn sum_of(samples: Seq<i32>) -> int
    decreases samples.len(),
{
    if samples.len() == 0 {
        0
    } else {
        sum_of(samples.drop_last()) + samples.last()
    }
}

/// The sum of the squares of the samples.
pub open spec fn squares_of(samples: Seq<i32>) -> int
    decreases samples.len(),
{
    if samples.len() == 0 {
        0
    } else {
        squares_of(samples.drop_last()) + samples.last() * samples.last()
    }
}

/// A full window of samples whose population standard deviation lies below
/// 1. With n samples, sum s and sum of squares q the variance is
/// (n q - s s) / (n n); it lies below 1 exactly when n q - s s < n n.
pub open spec fn nearly_constant(samples: Seq<i32>) -> bool {
    &&& samples.len() == SAMPLE_WINDOW
    &&& samples.len() * squares_of(samples) - sum_of(samples) * sum_of(samples) < samples.len()
        * samples.len()
}

/// The mean of the samples, rounded towards zero.
pub open spec fn mean_of(samples: Seq<i32>) -> int {
    if sum_of(samples) >= 0 {
        sum_of(samples) / (samples.len() as int)
    } else {
        -((-sum_of(samples)) / (samples.len() as int))
    }
}

/// The advisories for the registers below `upto`, in the order of the
/// registers.
pub open spec fn advice(samples: Map<usize, Vec<i32>>, upto: int) -> Seq<Advisory>
    decreases upto,
{
    if upto <= 0 {
        Seq::empty()
    } else {
        let before = advice(samples, upto - 1);
        let window = samples_of(samples, (upto - 1) as usize);
        if nearly_constant(window) {
            before.push(
                Advisory { register: (upto - 1) as usize, constant: mean_of(window) as i32 },
            )
        } else {
            before
        }
    }
}

/// The square of a 32-bit number is at most the square of the least one.
proof fn lemma_square_bounded(x: int)
    requires
        -0x8000_0000 <= x <= 0x7fff_ffff,
    ensures
        0 <= x * x <= 0x4000_0000_0000_0000,
{
    assert(0 <= x * x <= 0x4000_0000_0000_0000) by (nonlinear_arith)
        requires
            -0x8000_0000 <= x <= 0x7fff_ffff,
    ;
}

proof fn lemma_sums_bounded(samples: Seq<i32>)
    ensures
        -0x8000_0000 * samples.len() <= sum_of(samples) <= 0x7fff_ffff * samples.len(),
        0 <= squares_of(samples) <= 0x4000_0000_0000_0000 * samples.len(),
    decreases samples.len(),
{
    if samples.len() > 0 {
        lemma_sums_bounded(samples.drop_last());
        lemma_square_bounded(samples.last() as int);
    }
}

/// Judges a window of samples.
pub fn judge_samples(samples: &Vec<i32>) -> (constant: Option<i32>)
    ensures
        constant == if nearly_constant(samples@) {
            Some(mean_of(samples@) as i32)
        } else {
            None
        },
{
    if samples.len() != SAMPLE_WINDOW {
        return None;
    }
    let mut sum: i128 = 0;
    let mut squares: i128 = 0;
    let mut i: usize = 0;
    assert(samples@.take(0) =~= Seq::<i32>::empty());
    while i < samples.len()
        invariant
            i <= samples.len() == SAMPLE_WINDOW,
            sum == sum_of(samples@.take(i as int)),
            squares == squares_of(samples@.take(i as int)),
        decreases samples.len() - i,
    {
        proof {
            lemma_sums_bounded(samples@.take(i as int));
            assert(samples@.take(i + 1).drop_last() =~= samples@.take(i as int));
            lemma_square_bounded(samples@[i as int] as int);
        }
        let x: i128 = samples[i] as i128;
        sum = sum + x;
        squares = squares + x * x;
        i = i + 1;
    }
    proof {
        assert(samples@.take(i as int) =~= samples@);
        lemma_sums_bounded(samples@);
        assert(0 <= sum * sum <= 0x19_0000_0000_0000_0000) by (nonlinear_arith)
            requires
                -0x5_0000_0000 <= sum <= 0x5_0000_0000,
        ;
    }
    let spread: i128 = 10 * squares - sum * sum;
    if spread < 100 {
        let mean: i128 = if sum >= 0 {
            sum / 10
        } else {
            -((-sum) / 10)
        };
        Some(mean as i32)
    } else {
        None
    }
}

impl CPU {
    /// Whether the address was executed more often in this run than the
    /// redundancy threshold allows.
    pub fn is_redundant_instruction(&self, pc: usize) -> (worn: bool)
        ensures
            worn == (count_of(self@.live, pc) > REDUNDANCY_THRESHOLD),
    {
        lookup(&self.execution_count, pc) > REDUNDANCY_THRESHOLD
    }

    /// Redundant-write short-circuit for the `MOV` at `pc`. Where the
    /// register already holds the value, the write is not performed and the
    /// instruction's tag in memory becomes the no-op; the result says so.
    /// Else the register takes the value.
    pub fn modify(&mut self, pc: usize, reg: usize, val: i32) -> (rewritten: bool)
        requires
            pc < old(self)@.memory.len(),
            reg < 4,
        ensures
            rewritten == (old(self)@.registers[reg as int] == val),
            rewritten ==> final(self)@ == (MachineState {
                memory: old(self)@.memory.update(pc as int, TAG_NOP),
                ..old(self)@
            }),
            !rewritten ==> final(self)@ == (MachineState {
                registers: old(self)@.registers.update(reg as int, val),
                ..old(self)@
            }),
            final(self).same_observations(old(self)),
    {
        if self.registers[reg] == val {
            self.memory[pc] = TAG_NOP;
            true
        } else {
            self.registers[reg] = val;
            assert(self@.registers =~= old(self)@.registers.update(reg as int, val));
            false
        }
    }

    /// The current execution context: the low byte of each address in the
    /// window of recent addresses.
    pub fn current_execution_context(&self) -> (context: Vec<u8>)
        ensures
            context@ == context_of(self@.window),
    {
        let mut context: Vec<u8> = Vec::new();
        let mut i: usize = 0;
        while i < self.prediction_history.len()
            invariant
                i <= self.prediction_history@.len(),
                context@ == context_of(self@.window).take(i as int),
            decreases self.prediction_history@.len() - i,
        {
            let pc: usize = self.prediction_history[i];
            context.push((pc % 256) as u8);
            i = i + 1;
            assert(context@ =~= context_of(self@.window).take(i as int));
        }
        assert(context@ =~= context_of(self@.window));
        context
    }

    /// Whether the context is the pattern.
    pub fn pattern_matches(current: &Vec<u8>, pattern: &Vec<u8>) -> (same: bool)
        ensures
            same == (current@ == pattern@),
    {
        if current.len() != pattern.len() {
            return false;
        }
        let mut i: usize = 0;
        while i < current.len()
            invariant
                i <= current.len() == pattern.len(),
                current@.take(i as int) == pattern@.take(i as int),
            decreases current.len() - i,
        {
            if current[i] != pattern[i] {
                return false;
            }
            i = i + 1;
            assert(current@.take(i as int) =~= current@.take(i - 1).push(current@[i - 1]));
            assert(pattern@.take(i as int) =~= pattern@.take(i - 1).push(pattern@[i - 1]));
        }
        assert(current@.take(i as int) =~= current@);
        assert(pattern@.take(i as int) =~= pattern@);
        true
    }

    /// Counts the current execution context in the pattern database: each
    /// entry for that context counts one more. The entries are compared in
    /// parallel.
    pub fn analyze_patterns(&mut self)
        ensures
            final(self).pattern_db@ == with_context(
                old(self).pattern_db@,
                context_of(old(self)@.window),
            ),
            patterns_distinct(old(self).pattern_db@) ==> patterns_distinct(final(self).pattern_db@),
            final(self)@ == old(self)@,
            final(self).value_patterns == old(self).value_patterns,
            final(self).statistical_model == old(self).statistical_model,
    {
        let context: Vec<u8> = self.current_execution_context();
        let n: usize = self.pattern_db.len();
        let db: &Vec<PatternCount> = &self.pattern_db;
        let matches = |i: usize| -> (same: bool)
            requires
                i < db@.len(),
            ensures
                same == (db@[i as int].pattern@ == context@),
            { Self::pattern_matches(&context, &db[i].pattern) };
        let met: Vec<bool> = par_map(n, matches);
        let mut i: usize = 0;
        while i < n
            invariant
                i <= n == self.pattern_db@.len() == met@.len() == old(self).pattern_db@.len(),
                context@ == context_of(old(self)@.window),
                forall|j: int|
                    0 <= j < n ==> met@[j] == (old(self).pattern_db@[j].pattern@ == context@),
                forall|j: int|
                    0 <= j < i ==> self.pattern_db@[j] == with_context(
                        old(self).pattern_db@,
                        context@,
                    )[j],
                forall|j: int| i <= j < n ==> self.pattern_db@[j] == old(self).pattern_db@[j],
                self@ == old(self)@,
                self.value_patterns == old(self).value_patterns,
                self.statistical_model == old(self).statistical_model,
            decreases n - i,
        {
            if met[i] {
                let count: usize = bump_count(self.pattern_db[i].count);
                self.pattern_db[i].count = count;
            }
            i = i + 1;
        }
        assert(self.pattern_db@ =~= with_context(old(self).pattern_db@, context@));
    }

    /// Near-constant register detection. Takes one sample of each register,
    /// keeps the most recent samples of the window, and advises of each
    /// register whose window is full and whose samples have a population
    /// standard deviation below 1.
    pub fn detect_value_redundancies(&mut self) -> (advisories: Vec<Advisory>)
        ensures
            final(self)@ == old(self)@,
            final(self).pattern_db == old(self).pattern_db,
            final(self).statistical_model == old(self).statistical_model,
            forall|reg: usize|
                reg < 4 ==> samples_of(final(self).value_patterns@, reg) == sampled(
                    samples_of(old(self).value_patterns@, reg),
                    old(self)@.registers[reg as int],
                ),
            forall|reg: usize|
                reg >= 4 ==> samples_of(final(self).value_patterns@, reg) == samples_of(
                    old(self).value_patterns@,
                    reg,
                ),
            advisories@ == advice(final(self).value_patterns@, 4),
    {
        let mut advisories: Vec<Advisory> = Vec::new();
        let mut reg: usize = 0;
        while reg < 4
            invariant
                reg <= 4,
                self@ == old(self)@,
                self.pattern_db == old(self).pattern_db,
                self.statistical_model == old(self).statistical_model,
                forall|r: usize|
                    r < reg ==> samples_of(self.value_patterns@, r) == sampled(
                        samples_of(old(self).value_patterns@, r),
                        old(self)@.registers[r as int],
                    ),
                forall|r: usize|
                    r >= reg ==> samples_of(self.value_patterns@, r) == samples_of(
                        old(self).value_patterns@,
                        r,
                    ),
                advisories@ == advice(self.value_patterns@, reg as int),
            decreases 4 - reg,
        {
            let ghost before = self.value_patterns@;
            let had: Vec<i32> = match self.value_patterns.remove(&reg) {
                Some(samples) => samples,
                None => Vec::new(),
            };
            assert(had@ == samples_of(before, reg));
            let value: i32 = self.registers[reg];
            let window: Vec<i32> = Self::take_sample(&had, value);
            let verdict: Option<i32> = judge_samples(&window);
            self.value_patterns.insert(reg, window);
            proof {
                assert forall|r: usize| r != reg implies samples_of(self.value_patterns@, r)
                    == samples_of(before, r) by {}
                lemma_advice_ignores_later(before, self.value_patterns@, reg as int);
                assert forall|r: usize| r < reg + 1 implies samples_of(self.value_patterns@, r)
                    == sampled(
                    samples_of(old(self).value_patterns@, r),
                    old(self)@.registers[r as int],
                ) by {
                    if r < reg {
                        assert(samples_of(self.value_patterns@, r) == samples_of(before, r));
                    }
                }
            }
            match verdict {
                Some(constant) => {
                    advisories.push(Advisory { register: reg, constant });
                },
                None => {},
            }
            reg = reg + 1;
        }
        advisories
    }

    /// The samples after one more.
    fn take_sample(samples: &Vec<i32>, value: i32) -> (window: Vec<i32>)
        ensures
            window@ == sampled(samples@, value),
    {
        let mut window: Vec<i32> = Vec::new();
        let total: usize = samples.len();
        let start: usize = if total >= SAMPLE_WINDOW {
            total - (SAMPLE_WINDOW - 1)
        } else {
            0
        };
        let mut i: usize = start;
        while i < total
            invariant
                start <= i <= total == samples@.len(),
                window@ == samples@.subrange(start as int, i as int),
            decreases total - i,
        {
            window.push(samples[i]);
            i = i + 1;
            assert(window@ =~= samples@.subrange(start as int, i as int));
        }
        window.push(value);
        assert(window@ =~= sampled(samples@, value));
        window
    }

    /// Profile-guided elision in its textual form: the given statements with
    /// each worn-out instruction line turned into a comment. The profile is
    /// the execution history.
    pub fn optimize_code(&self, assembly_lines: &Vec<String>) -> (out: Vec<String>)
        ensures
            string_views(out@) == annotated(string_views(assembly_lines@), self@.profile),
    {
        annotate_by_profile(assembly_lines, &self.execution_history)
    }
}

/// The advisories for the registers below `upto` depend on the samples of
/// those registers alone.
proof fn lemma_advice_ignores_later(a: Map<usize, Vec<i32>>, b: Map<usize, Vec<i32>>, upto: int)
    requires
        forall|r: usize| r < upto ==> samples_of(a, r) == samples_of(b, r),
    ensures
        advice(a, upto) == advice(b, upto),
    decreases upto,
{
    if upto > 0 {
        lemma_advice_ignores_later(a, b, upto - 1);
        assert(samples_of(a, (upto - 1) as usize) == samples_of(b, (upto - 1) as usize));
    }
}

/// The count that the database holds for a context; of two entries for one
/// context the later one counts.
pub open spec fn pattern_count(db: Seq<PatternCount>, sequence: Seq<u8>) -> usize
    decreases db.len(),
{
    if db.len() == 0 {
        0
    } else if db.last().pattern@ == sequence {
        db.last().count
    } else {
        pattern_count(db.drop_last(), sequence)
    }
}

/// The weight of an instruction sequence: the executions recorded for the
/// address that equals its length, and its count in the pattern database,
/// over one more than all recorded executions.
pub open spec fn weight_of(
    profile: Map<usize, usize>,
    db: Seq<PatternCount>,
    sequence: Seq<u8>,
) -> Ratio {
    Ratio {
        numerator: (count_of(profile, sequence.len() as usize) + pattern_count(db, sequence))
            as u128,
        denominator: (total_of(profile) + 1) as u128,
    }
}

/// Where the instruction sequence around `i` starts: behind the nearest
/// `HALT` tag before `i`, or at the start of the program.
pub open spec fn segment_start(program: Seq<u8>, i: int) -> int
    decreases i,
{
    if i <= 0 {
        0
    } else if program[i - 1] == TAG_HALT {
        i
    } else {
        segment_start(program, i - 1)
    }
}

/// Where the instruction sequence around `i` ends: at the nearest `HALT` tag
/// from `i` on, or at the end of the program.
pub open spec fn segment_end(program: Seq<u8>, i: int) -> int
    decreases program.len() - i,
{
    if i >= program.len() - 1 || program[i] == TAG_HALT {
        i
    } else {
        segment_end(program, i + 1)
    }
}

/// The instruction sequence around `i`.
pub open spec fn segment_at(program: Seq<u8>, i: int) -> Seq<u8> {
    program.subrange(segment_start(program, i), segment_end(program, i) + 1)
}

/// The statistical model of a program: for each address the weight of the
/// instruction sequence around it.
pub open spec fn modelled(profile: Map<usize, usize>, db: Seq<PatternCount>, program: Seq<u8>) -> Seq<
    Ratio,
> {
    Seq::new(program.len(), |i: int| weight_of(profile, db, segment_at(program, i)))
}

proof fn lemma_segment_start(program: Seq<u8>, start: int, i: int)
    requires
        0 <= start <= i <= program.len(),
        start == 0 || program[start - 1] == TAG_HALT,
        forall|j: int| start <= j < i ==> program[j] != TAG_HALT,
    ensures
        segment_start(program, i) == start,
    decreases i - start,
{
    if i > start {
        lemma_segment_start(program, start, i - 1);
    }
}

proof fn lemma_segment_end(program: Seq<u8>, i: int, end: int)
    requires
        0 <= i <= end < program.len(),
        end == program.len() - 1 || program[end] == TAG_HALT,
        forall|j: int| i <= j < end ==> program[j] != TAG_HALT,
    ensures
        segment_end(program, i) == end,
    decreases end - i,
{
    if i < end {
        lemma_segment_end(program, i + 1, end);
    }
}

impl CPU {
    /// The count that the pattern database holds for a context.
    pub fn pattern_frequency(&self, sequence: &Vec<u8>) -> (count: usize)
        ensures
            count == pattern_count(self.pattern_db@, sequence@),
    {
        let mut i: usize = self.pattern_db.len();
        assert(self.pattern_db@.take(i as int) =~= self.pattern_db@);
        while i > 0
            invariant
                i <= self.pattern_db@.len(),
                pattern_count(self.pattern_db@, sequence@) == pattern_count(
                    self.pattern_db@.take(i as int),
                    sequence@,
                ),
            decreases i,
        {
            assert(self.pattern_db@.take(i as int).drop_last() =~= self.pattern_db@.take(i - 1));
            if Self::pattern_matches(sequence, &self.pattern_db[i - 1].pattern) {
                return self.pattern_db[i - 1].count;
            }
            i = i - 1;
        }
        0
    }

    /// The weight of an instruction sequence under the execution history
    /// and the pattern database.
    pub fn calculate_sequence_probability(&self, sequence: &Vec<u8>) -> (weight: Ratio)
        ensures
            weight == weight_of(self@.profile, self.pattern_db@, sequence@),
            weight.denominator > 0,
    {
        let base: usize = lookup(&self.execution_history, sequence.len());
        let met: usize = self.pattern_frequency(sequence);
        let all: u128 = self.total_executions();
        Ratio { numerator: base as u128 + met as u128, denominator: all + 1 }
    }

    /// Builds the statistical model of a program: each address gets the
    /// weight of the instruction sequence around it. A sequence ends with a
    /// `HALT` tag or with the program.
    pub fn build_statistical_model(&mut self, program: &Vec<u8>)
        ensures
            final(self).statistical_model@ == modelled(
                old(self)@.profile,
                old(self).pattern_db@,
                program@,
            ),
            final(self)@ == old(self)@,
            final(self).pattern_db == old(self).pattern_db,
            final(self).value_patterns == old(self).value_patterns,
    {
        let n: usize = program.len();
        let ghost model = modelled(self@.profile, self.pattern_db@, program@);
        let mut weights: Vec<Ratio> = Vec::new();
        let mut start: usize = 0;
        while start < n
            invariant
                start <= n == program@.len(),
                start == 0 || start == n || program@[start - 1] == TAG_HALT,
                model == modelled(self@.profile, self.pattern_db@, program@),
                weights@ == model.take(start as int),
            decreases n - start,
        {
            assert(start == 0 || program@[start - 1] == TAG_HALT);
            let mut end: usize = start;
            while end < n - 1 && program[end] != TAG_HALT
                invariant
                    start <= end < n == program@.len(),
                    forall|j: int| start <= j < end ==> program@[j] != TAG_HALT,
                decreases n - end,
            {
                end = end + 1;
            }
            assert(end == n - 1 || program@[end as int] == TAG_HALT);
            let mut sequence: Vec<u8> = Vec::new();
            let mut j: usize = start;
            while j <= end
                invariant
                    start <= j <= end + 1 <= n == program@.len(),
                    sequence@ == program@.subrange(start as int, j as int),
                decreases end + 1 - j,
            {
                sequence.push(program[j]);
                j = j + 1;
                assert(sequence@ =~= program@.subrange(start as int, j as int));
            }
            let weight: Ratio = self.calculate_sequence_probability(&sequence);
            let mut k: usize = start;
            while k <= end
                invariant
                    start <= k <= end + 1 <= n == program@.len(),
                    start == 0 || program@[start - 1] == TAG_HALT,
                    end == n - 1 || program@[end as int] == TAG_HALT,
                    forall|j: int| start <= j < end ==> program@[j] != TAG_HALT,
                    model == modelled(self@.profile, self.pattern_db@, program@),
                    weight == weight_of(
                        self@.profile,
                        self.pattern_db@,
                        program@.subrange(start as int, end + 1),
                    ),
                    weights@ == model.take(k as int),
                decreases end + 1 - k,
            {
                proof {
                    lemma_segment_start(program@, start as int, k as int);
                    lemma_segment_end(program@, k as int, end as int);
                }
                weights.push(weight);
                k = k + 1;
                assert(weights@ =~= model.take(k as int));
            }
            start = end + 1;
        }
        assert(model.take(start as int) =~= model);
        self.statistical_model = weights;
    }
}

} // verus!
