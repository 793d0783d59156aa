//! The virtual machine: a fetch-decode-execute loop over a flat byte memory
//! and four signed 32-bit registers, with live execution counters, a bounded
//! window of recent addresses and a jump-pair counter for loop detection.

use crate::catalog::{decode, decode_at, Instruction, MEMORY_SIZE};
use crate::profile::{
    bump, observed, pair_count, record_visit, visited, JumpPairCounter, Profile,
};
use std::collections::{HashMap, VecDeque};
use vstd::prelude::*;

verus! {

broadcast use {
    vstd::std_specs::hash::group_hash_axioms,
    vstd::std_specs::vecdeque::group_vec_dequeue_axioms,
};

/// Capacity of the window of recently visited addresses.
pub const WINDOW_CAPACITY: usize = 10;

/// A jump pair seen more often than this stops the machine.
pub const LOOP_THRESHOLD: usize = 5;

/// Why the machine stopped.
#[derive(Clone, Copy, Debug, PartialEq, Eq, Structural)]
pub enum HaltReason {
    /// A `HALT` instruction was executed.
    Normal,
    /// A jump pair was seen more often than the threshold allows.
    LoopDetected,
    /// No instruction of the catalog starts at the program counter.
    UnknownOpcode,
}

/// The machine as the state machine sees it.
pub struct MachineState {
    pub registers: Seq<i32>,
    pub memory: Seq<u8>,
    pub pc: usize,
    pub halted: bool,
    pub halt_reason: Option<HaltReason>,
    /// Executions per address in this run.
    pub live: Map<usize, usize>,
    /// Executions per address over all runs.
    pub profile: Map<usize, usize>,
    /// The most recently visited addresses, oldest first.
    pub window: Seq<usize>,
    /// Observations per (previous address, current address).
    pub pairs: Map<(usize, usize), usize>,
}

/// The window after a visit to `pc`: the address joins at the back, and the
/// oldest one leaves where that makes the window longer than its capacity.
pub open spec fn window_after(window: Seq<usize>, pc: usize) -> Seq<usize> {
    let pushed = window.push(pc);
    if pushed.len() > WINDOW_CAPACITY {
        pushed.skip(1)
    } else {
        pushed
    }
}

/// The machine after executing `instruction`, fetched at the current program
/// counter; `None` stands for bytes that decode to no instruction.
pub open spec fn executed(s: MachineState, instruction: Option<Instruction>) -> MachineState {
    match instruction {
        Some(Instruction::Mov { reg, imm }) => MachineState {
            registers: s.registers.update(reg as int, imm as i32),
            pc: (s.pc + 3) as usize,
            ..s
        },
        Some(Instruction::Add { dst, src }) => MachineState {
            registers: s.registers.update(
                dst as int,
                s.registers[dst as int].wrapping_add(s.registers[src as int]),
            ),
            pc: (s.pc + 3) as usize,
            ..s
        },
        Some(Instruction::Jmp { target }) => MachineState { pc: target as usize, ..s },
        Some(Instruction::Halt) => MachineState {
            halted: true,
            halt_reason: Some(HaltReason::Normal),
            ..s
        },
        Some(Instruction::Nop) => MachineState { pc: (s.pc + 1) as usize, ..s },
        None => MachineState {
            halted: true,
            halt_reason: Some(HaltReason::UnknownOpcode),
            ..s
        },
    }
}

/// One transition of the machine. A halted machine stays as it is. A running
/// one counts the visit to the current address in both counters; if there is
/// a previous address, counts the pair and stops with `LoopDetected` where
/// the pair's count now exceeds the threshold; else records the address in
/// the window, and executes the instruction at the program counter.
pub open spec fn step_spec(s: MachineState) -> MachineState {
    if s.halted {
        s
    } else {
        let counted = MachineState {
            live: visited(s.live, s.pc),
            profile: visited(s.profile, s.pc),
            ..s
        };
        if s.window.len() > 0 && bump(pair_count(s.pairs, s.window.last(), s.pc))
            > LOOP_THRESHOLD {
            MachineState {
                pairs: observed(s.pairs, s.window.last(), s.pc),
                halted: true,
                halt_reason: Some(HaltReason::LoopDetected),
                ..counted
            }
        } else {
            let paired = if s.window.len() > 0 {
                MachineState { pairs: observed(s.pairs, s.window.last(), s.pc), ..counted }
            } else {
                counted
            };
            executed(
                MachineState { window: window_after(s.window, s.pc), ..paired },
                decode_at(s.memory, s.pc as int),
            )
        }
    }
}

/// The machine after `n` transitions.
pub open spec fn steps(s: MachineState, n: nat) -> MachineState
    decreases n,
{
    if n == 0 {
        s
    } else {
        step_spec(steps(s, (n - 1) as nat))
    }
}

/// `t` is what `s` runs to: the first halted state on the way from `s`.
pub open spec fn runs_to(s: MachineState, t: MachineState) -> bool {
    exists|n: nat|
        {
            &&& #[trigger] steps(s, n) == t
            &&& t.halted
            &&& forall|k: nat| k < n ==> !(#[trigger] steps(s, k)).halted
        }
}

impl MachineState {
    /// A machine has a halt reason exactly when it has halted.
    pub open spec fn wf(self) -> bool {
        self.halted <==> self.halt_reason is Some
    }
}

/// How many more observations a pair with count `c` can take before it
/// stops the machine.
pub open spec fn slack(c: usize) -> nat {
    if c > LOOP_THRESHOLD {
        0
    } else {
        (LOOP_THRESHOLD + 1 - c) as nat
    }
}

/// The slack of the pairs `(prev, 0)` to `(prev, n - 1)`, summed.
pub open spec fn row_slack(pairs: Map<(usize, usize), usize>, prev: usize, n: nat) -> nat
    decreases n,
{
    if n == 0 {
        0
    } else {
        row_slack(pairs, prev, (n - 1) as nat) + slack(
            pair_count(pairs, prev, (n - 1) as usize),
        )
    }
}

/// The slack of all pairs of addresses below `m` and `n`, summed.
pub open spec fn grid_slack(pairs: Map<(usize, usize), usize>, m: nat, n: nat) -> nat
    decreases m,
{
    if m == 0 {
        0
    } else {
        grid_slack(pairs, (m - 1) as nat, n) + row_slack(pairs, (m - 1) as usize, n)
    }
}

/// The window's newest address lies in memory.
pub open spec fn anchored(s: MachineState) -> bool {
    s.window.len() > 0 && s.window.last() < s.memory.len()
}

/// A bound on the transitions that a machine can still make: none once it
/// has halted; else one for each observation that the pairs of addresses in
/// memory can still take, and one more until the window's newest address
/// lies in memory.
pub open spec fn fuel(s: MachineState) -> nat {
    if s.halted {
        0
    } else {
        1 + grid_slack(s.pairs, s.memory.len(), s.memory.len()) + if anchored(s) {
            0nat
        } else {
            1nat
        }
    }
}

proof fn lemma_row_slack_same(
    before: Map<(usize, usize), usize>,
    after: Map<(usize, usize), usize>,
    prev: usize,
    n: nat,
)
    requires
        n <= usize::MAX,
        forall|cur: usize| cur < n ==> pair_count(after, prev, cur) == pair_count(before, prev, cur),
    ensures
        row_slack(after, prev, n) == row_slack(before, prev, n),
    decreases n,
{
    if n > 0 {
        lemma_row_slack_same(before, after, prev, (n - 1) as nat);
    }
}

proof fn lemma_row_slack_observed(
    pairs: Map<(usize, usize), usize>,
    prev: usize,
    cur: usize,
    n: nat,
)
    requires
        n <= usize::MAX,
        cur < n,
    ensures
        row_slack(observed(pairs, prev, cur), prev, n) + slack(pair_count(pairs, prev, cur))
            == row_slack(pairs, prev, n) + slack(bump(pair_count(pairs, prev, cur))),
    decreases n,
{
    let after = observed(pairs, prev, cur);
    if cur == n - 1 {
        lemma_row_slack_same(pairs, after, prev, (n - 1) as nat);
    } else {
        lemma_row_slack_observed(pairs, prev, cur, (n - 1) as nat);
    }
}

proof fn lemma_grid_slack_same(
    before: Map<(usize, usize), usize>,
    after: Map<(usize, usize), usize>,
    m: nat,
    n: nat,
)
    requires
        m <= usize::MAX,
        n <= usize::MAX,
        forall|prev: usize, cur: usize|
            prev < m && cur < n ==> pair_count(after, prev, cur) == pair_count(before, prev, cur),
    ensures
        grid_slack(after, m, n) == grid_slack(before, m, n),
    decreases m,
{
    if m > 0 {
        lemma_grid_slack_same(before, after, (m - 1) as nat, n);
        lemma_row_slack_same(before, after, (m - 1) as usize, n);
    }
}

proof fn lemma_grid_slack_observed(
    pairs: Map<(usize, usize), usize>,
    prev: usize,
    cur: usize,
    m: nat,
    n: nat,
)
    requires
        m <= usize::MAX,
        n <= usize::MAX,
        prev < m,
        cur < n,
    ensures
        grid_slack(observed(pairs, prev, cur), m, n) + slack(pair_count(pairs, prev, cur))
            == grid_slack(pairs, m, n) + slack(bump(pair_count(pairs, prev, cur))),
    decreases m,
{
    let after = observed(pairs, prev, cur);
    if prev == m - 1 {
        lemma_grid_slack_same(pairs, after, (m - 1) as nat, n);
        lemma_row_slack_observed(pairs, prev, cur, n);
    } else {
        lemma_grid_slack_observed(pairs, prev, cur, (m - 1) as nat, n);
        lemma_row_slack_same(pairs, after, (m - 1) as usize, n);
    }
}

/// Every transition of a running machine uses up fuel: loop detection
/// bounds every run.
pub proof fn lemma_step_uses_fuel(s: MachineState)
    requires
        !s.halted,
        s.memory.len() <= usize::MAX,
    ensures
        fuel(step_spec(s)) < fuel(s),
{
    let t = step_spec(s);
    let size = s.memory.len();
    if !t.halted {
        assert(decode_at(s.memory, s.pc as int) is Some);
        assert(s.pc < size);
        assert(t.memory == s.memory);
        assert(t.window == window_after(s.window, s.pc));
        assert(t.window.last() == s.pc);
        assert(anchored(t));
        if s.window.len() > 0 {
            let prev = s.window.last();
            assert(t.pairs == observed(s.pairs, prev, s.pc));
            if prev < size {
                lemma_grid_slack_observed(s.pairs, prev, s.pc, size, size);
            } else {
                lemma_grid_slack_same(s.pairs, t.pairs, size, size);
            }
        } else {
            assert(t.pairs == s.pairs);
        }
    }
}

/// A halted machine stays as it is, whatever the number of transitions.
pub proof fn lemma_halted_stays(s: MachineState, n: nat)
    requires
        s.halted,
    ensures
        steps(s, n) == s,
    decreases n,
{
    if n > 0 {
        lemma_halted_stays(s, (n - 1) as nat);
    }
}

/// The first of several transitions can be taken first.
pub proof fn lemma_steps_from_next(s: MachineState, n: nat)
    requires
        n > 0,
    ensures
        steps(s, n) == steps(step_spec(s), (n - 1) as nat),
    decreases n,
{
    if n > 1 {
        lemma_steps_from_next(s, (n - 1) as nat);
        assert(steps(s, n) == step_spec(steps(s, (n - 1) as nat)));
        assert(steps(step_spec(s), (n - 1) as nat) == step_spec(
            steps(step_spec(s), (n - 2) as nat),
        ));
    } else {
        assert(steps(s, 0) == s);
        assert(steps(s, 1) == step_spec(steps(s, 0)));
        assert(steps(step_spec(s), 0) == step_spec(s));
    }
}

/// The number of fetches is bounded: after as many transitions as the
/// machine has fuel, it has halted. No run is unbounded.
pub proof fn lemma_halts_within_fuel(s: MachineState, n: nat)
    requires
        s.memory.len() <= usize::MAX,
        n >= fuel(s),
    ensures
        steps(s, n).halted,
    decreases n,
{
    if s.halted {
        lemma_halted_stays(s, n);
    } else {
        lemma_step_uses_fuel(s);
        lemma_halts_within_fuel(step_spec(s), (n - 1) as nat);
        lemma_steps_from_next(s, n);
    }
}

proof fn lemma_row_slack_bounded(pairs: Map<(usize, usize), usize>, prev: usize, n: nat)
    ensures
        row_slack(pairs, prev, n) <= (LOOP_THRESHOLD + 1) * n,
    decreases n,
{
    if n > 0 {
        lemma_row_slack_bounded(pairs, prev, (n - 1) as nat);
    }
}

proof fn lemma_grid_slack_bounded(pairs: Map<(usize, usize), usize>, m: nat, n: nat)
    ensures
        grid_slack(pairs, m, n) <= (LOOP_THRESHOLD + 1) * m * n,
    decreases m,
{
    if m > 0 {
        lemma_grid_slack_bounded(pairs, (m - 1) as nat, n);
        lemma_row_slack_bounded(pairs, (m - 1) as usize, n);
        assert(6 * (m - 1) * n + 6 * n == 6 * m * n) by (nonlinear_arith);
    } else {
        assert(6 * m * n == 0) by (nonlinear_arith)
            requires
                m == 0,
        ;
    }
}

/// The fuel of a machine, and with it the number of its fetches, is at most
/// two more than six observations for each pair of addresses in memory.
pub proof fn lemma_fuel_bounded(s: MachineState)
    ensures
        fuel(s) <= 2 + (LOOP_THRESHOLD + 1) * s.memory.len() * s.memory.len(),
{
    lemma_grid_slack_bounded(s.pairs, s.memory.len(), s.memory.len());
    assert(6 * s.memory.len() * s.memory.len() >= 0) by (nonlinear_arith);
}

/// `t` is what `s` runs to, and the run takes at most `limit` transitions.
pub open spec fn runs_to_within(s: MachineState, t: MachineState, limit: nat) -> bool {
    exists|n: nat|
        {
            &&& n <= limit
            &&& #[trigger] steps(s, n) == t
            &&& t.halted
            &&& forall|k: nat| k < n ==> !(#[trigger] steps(s, k)).halted
        }
}

/// Every run is short: it takes no more transitions, and so no more
/// fetches, than the machine has fuel at its start.
pub proof fn lemma_run_within_fuel(s: MachineState, t: MachineState)
    requires
        s.memory.len() <= usize::MAX,
        runs_to(s, t),
    ensures
        runs_to_within(s, t, fuel(s)),
{
    let n = choose|n: nat|
        {
            &&& #[trigger] steps(s, n) == t
            &&& t.halted
            &&& forall|k: nat| k < n ==> !(#[trigger] steps(s, k)).halted
        };
    lemma_halts_within_fuel(s, fuel(s));
    if n > fuel(s) {
        assert(!steps(s, fuel(s)).halted);
    }
    assert(n <= fuel(s) && steps(s, n) == t);
}

/// The program counter and the addresses in the window lie in memory or
/// directly behind it.
pub open spec fn within_reach(s: MachineState) -> bool {
    &&& s.pc <= s.memory.len()
    &&& forall|i: int| 0 <= i < s.window.len() ==> #[trigger] s.window[i] <= s.memory.len()
}

/// A machine whose memory holds every target of a jump never leaves its
/// reach: no transition takes the program counter, or an address in the
/// window, further than directly behind memory.
pub proof fn lemma_step_stays_within_reach(s: MachineState)
    requires
        within_reach(s),
        s.memory.len() >= MEMORY_SIZE - 1,
    ensures
        within_reach(step_spec(s)),
{
    let t = step_spec(s);
    assert forall|i: int| 0 <= i < t.window.len() implies #[trigger] t.window[i]
        <= t.memory.len() by {
        if !s.halted && t.window != s.window {
            let pushed = s.window.push(s.pc);
            if pushed.len() > WINDOW_CAPACITY {
                assert(t.window[i] == pushed[i + 1]);
            } else {
                assert(t.window[i] == pushed[i]);
            }
        }
    }
}

/// The transition keeps the halt reason in step with the halted flag.
pub proof fn lemma_step_keeps_wf(s: MachineState)
    requires
        s.wf(),
    ensures
        step_spec(s).wf(),
{
}

/// Loop detection. A running machine whose window holds a previous address
/// has seen the pair (previous, current) some number of times. The
/// transition counts this observation, and stops the machine with
/// `LoopDetected` exactly when the pair has been seen five times before,
/// that is on its sixth observation and not before.
pub proof fn lemma_loop_detected_on_sixth(s: MachineState)
    requires
        s.wf(),
        !s.halted,
        s.window.len() > 0,
    ensures
        pair_count(step_spec(s).pairs, s.window.last(), s.pc) == bump(
            pair_count(s.pairs, s.window.last(), s.pc),
        ),
        step_spec(s).halt_reason == Some(HaltReason::LoopDetected) <==> pair_count(
            s.pairs,
            s.window.last(),
            s.pc,
        ) >= LOOP_THRESHOLD,
{
}

/// A machine without a previous address is not stopped by loop detection.
pub proof fn lemma_no_loop_without_previous(s: MachineState)
    requires
        s.wf(),
        !s.halted,
        s.window.len() == 0,
    ensures
        step_spec(s).halt_reason != Some(HaltReason::LoopDetected),
        step_spec(s).pairs == s.pairs,
{
}

/// The window never grows beyond its capacity.
pub proof fn lemma_window_bounded(s: MachineState)
    requires
        s.window.len() <= WINDOW_CAPACITY,
    ensures
        step_spec(s).window.len() <= WINDOW_CAPACITY,
{
}

/// The transition reads memory and never writes it.
pub proof fn lemma_step_keeps_memory(s: MachineState)
    ensures
        step_spec(s).memory == s.memory,
{
}

/// What a machine runs to is determined by where it starts.
pub proof fn lemma_runs_to_unique(s: MachineState, t1: MachineState, t2: MachineState)
    requires
        runs_to(s, t1),
        runs_to(s, t2),
    ensures
        t1 == t2,
{
    let n1 = choose|n: nat|
        {
            &&& #[trigger] steps(s, n) == t1
            &&& t1.halted
            &&& forall|k: nat| k < n ==> !(#[trigger] steps(s, k)).halted
        };
    let n2 = choose|n: nat|
        {
            &&& #[trigger] steps(s, n) == t2
            &&& t2.halted
            &&& forall|k: nat| k < n ==> !(#[trigger] steps(s, k)).halted
        };
    if n1 < n2 {
        assert(!steps(s, n1).halted);
    } else if n2 < n1 {
        assert(!steps(s, n2).halted);
    }
}

/// The machine: registers, memory and program counter, the counters that the
/// fetch-execute step maintains, and the state of the optional observers.
pub struct CPU {
    pub registers: [i32; 4],
    pub memory: Vec<u8>,
    pub pc: usize,
    pub halted: bool,
    /// Why the machine halted, once it has.
    pub halt_reason: Option<HaltReason>,
    /// Executions per address in this run.
    pub execution_count: Profile,
    /// Executions per address over all runs.
    pub execution_history: Profile,
    /// The most recently visited addresses, oldest first.
    pub prediction_history: VecDeque<usize>,
    pub loop_counter: JumpPairCounter,
    /// Execution contexts with how often each was met.
    pub pattern_db: Vec<PatternCount>,
    /// For each register, its most recent samples, oldest first.
    pub value_patterns: HashMap<usize, Vec<i32>>,
    /// For each address of the last modelled program, the weight of the
    /// instruction sequence it belongs to.
    pub statistical_model: Vec<Ratio>,
}

/// A context of recent addresses, and how often execution was in it.
#[derive(Clone, Debug, PartialEq, Eq)]
pub struct PatternCount {
    pub pattern: Vec<u8>,
    pub count: usize,
}

/// A fraction of two counts. A denominator of 0 does not occur in what the
/// machine computes.
#[derive(Clone, Copy, Debug, PartialEq, Eq, Structural)]
pub struct Ratio {
    pub numerator: u128,
    pub denominator: u128,
}

impl View for CPU {
    type V = MachineState;

    open spec fn view(&self) -> MachineState {
        MachineState {
            registers: self.registers@,
            memory: self.memory@,
            pc: self.pc,
            halted: self.halted,
            halt_reason: self.halt_reason,
            live: self.execution_count@,
            profile: self.execution_history@,
            window: self.prediction_history@,
            pairs: self.loop_counter@,
        }
    }
}

impl CPU {
    /// The observers' state is the same in both machines.
    pub open spec fn same_observations(&self, other: &CPU) -> bool {
        &&& self.pattern_db == other.pattern_db
        &&& self.value_patterns == other.value_patterns
        &&& self.statistical_model == other.statistical_model
    }

    /// A running machine at address 0 with zeroed registers and memory and
    /// empty counters.
    pub fn new() -> (cpu: Self)
        ensures
            cpu@.registers == seq![0i32, 0i32, 0i32, 0i32],
            cpu@.memory == Seq::new(MEMORY_SIZE as nat, |i: int| 0u8),
            cpu@.pc == 0,
            !cpu@.halted,
            cpu@.halt_reason is None,
            cpu@.live == Map::<usize, usize>::empty(),
            cpu@.profile == Map::<usize, usize>::empty(),
            cpu@.window == Seq::<usize>::empty(),
            cpu@.pairs == Map::<(usize, usize), usize>::empty(),
            cpu.pattern_db@ == Seq::<PatternCount>::empty(),
            cpu.value_patterns@ == Map::<usize, Vec<i32>>::empty(),
            cpu.statistical_model@ == Seq::<Ratio>::empty(),
    {
        let mut memory: Vec<u8> = Vec::new();
        let mut i: usize = 0;
        while i < MEMORY_SIZE
            invariant
                i <= MEMORY_SIZE,
                memory@ == Seq::new(i as nat, |j: int| 0u8),
            decreases MEMORY_SIZE - i,
        {
            memory.push(0);
            i = i + 1;
            assert(memory@ =~= Seq::new(i as nat, |j: int| 0u8));
        }
        let cpu = CPU {
            registers: [0, 0, 0, 0],
            memory,
            pc: 0,
            halted: false,
            halt_reason: None,
            execution_count: HashMap::new(),
            execution_history: HashMap::new(),
            prediction_history: VecDeque::new(),
            loop_counter: JumpPairCounter::new(),
            pattern_db: Vec::new(),
            value_patterns: HashMap::new(),
            statistical_model: Vec::new(),
        };
        assert(cpu@.registers =~= seq![0i32, 0i32, 0i32, 0i32]);
        cpu
    }

    /// Copies the program to the start of memory; the rest of memory stays.
    pub fn load_program(&mut self, program: &Vec<u8>)
        requires
            program@.len() <= old(self)@.memory.len(),
        ensures
            final(self)@.memory == program@ + old(self)@.memory.skip(program@.len() as int),
            final(self)@ == (MachineState { memory: final(self)@.memory, ..old(self)@ }),
            final(self).same_observations(old(self)),
    {
        let mut i: usize = 0;
        while i < program.len()
            invariant
                i <= program.len(),
                program@.len() <= old(self)@.memory.len(),
                self.memory@.len() == old(self)@.memory.len(),
                self.memory@ == program@.take(i as int) + old(self)@.memory.skip(i as int),
                self@ == (MachineState { memory: self@.memory, ..old(self)@ }),
                self.same_observations(old(self)),
            decreases program.len() - i,
        {
            self.memory[i] = program[i];
            i = i + 1;
            assert(self.memory@ =~= program@.take(i as int) + old(self)@.memory.skip(i as int));
        }
        assert(program@.take(i as int) =~= program@);
    }

    /// One transition of the machine.
    pub fn step(&mut self)
        ensures
            final(self)@ == step_spec(old(self)@),
            final(self).same_observations(old(self)),
    {
        if self.halted {
            return ;
        }
        let pc: usize = self.pc;
        record_visit(&mut self.execution_count, pc);
        record_visit(&mut self.execution_history, pc);
        let seen: usize = self.prediction_history.len();
        if seen > 0 {
            let prev: usize = self.prediction_history[seen - 1];
            let count: usize = self.loop_counter.observe(prev, pc);
            if count > LOOP_THRESHOLD {
                self.halted = true;
                self.halt_reason = Some(HaltReason::LoopDetected);
                return ;
            }
        }
        self.prediction_history.push_back(pc);
        if self.prediction_history.len() > WINDOW_CAPACITY {
            self.prediction_history.pop_front();
        }
        assert(self.prediction_history@ =~= window_after(old(self)@.window, pc));
        let fetched: Option<Instruction> = decode(&self.memory, pc);
        let size: usize = self.memory.len();
        assert(fetched matches Some(i) ==> pc + i.spec_opcode().spec_width() <= size);
        match fetched {
            Some(Instruction::Mov { reg, imm }) => {
                self.registers[reg as usize] = imm as i32;
                self.pc = pc + 3;
            },
            Some(Instruction::Add { dst, src }) => {
                let sum: i32 = self.registers[dst as usize].wrapping_add(
                    self.registers[src as usize],
                );
                self.registers[dst as usize] = sum;
                self.pc = pc + 3;
            },
            Some(Instruction::Jmp { target }) => {
                self.pc = target as usize;
            },
            Some(Instruction::Halt) => {
                self.halted = true;
                self.halt_reason = Some(HaltReason::Normal);
            },
            Some(Instruction::Nop) => {
                self.pc = pc + 1;
            },
            None => {
                self.halted = true;
                self.halt_reason = Some(HaltReason::UnknownOpcode);
            },
        }
    }

    /// Runs the machine until it halts, and returns why it did. The run is
    /// the sequence of transitions from the state at the call to the first
    /// halted state; loop detection makes that sequence finite.
    pub fn execute(&mut self) -> (reason: Option<HaltReason>)
        ensures
            runs_to(old(self)@, final(self)@),
            reason == final(self)@.halt_reason,
            final(self)@.memory == old(self)@.memory,
            old(self)@.window.len() <= WINDOW_CAPACITY ==> final(self)@.window.len()
                <= WINDOW_CAPACITY,
            final(self).same_observations(old(self)),
    {
        let ghost start = self@;
        let ghost mut n: nat = 0;
        while !self.halted
            invariant
                self@ == steps(start, n),
                forall|k: nat| k < n ==> !(#[trigger] steps(start, k)).halted,
                self@.memory == start.memory,
                start.window.len() <= WINDOW_CAPACITY ==> self@.window.len() <= WINDOW_CAPACITY,
                self.same_observations(old(self)),
            decreases fuel(self@),
        {
            proof {
                assert(self.memory.len() <= usize::MAX);
                lemma_step_uses_fuel(self@);
            }
            self.step();
            proof {
                n = n + 1;
            }
        }
        self.halt_reason
    }
}

/// The state in which a run of `program` with the stored `profile` starts:
/// the program at the start of zeroed memory, zeroed registers, and no
/// history but the profile.
pub open spec fn initial_state(program: Seq<u8>, profile: Map<usize, usize>) -> MachineState {
    MachineState {
        registers: seq![0i32, 0i32, 0i32, 0i32],
        memory: program + Seq::new((MEMORY_SIZE - program.len()) as nat, |i: int| 0u8),
        pc: 0,
        halted: false,
        halt_reason: None,
        live: Map::empty(),
        profile,
        window: Seq::empty(),
        pairs: Map::empty(),
    }
}

/// Runs `program` on a fresh machine that starts with `profile`, and returns
/// the halted machine: its registers and memory, the updated profile in
/// `execution_history`, and the halt reason.
pub fn run(program: &Vec<u8>, profile: Profile) -> (cpu: CPU)
    requires
        program@.len() <= MEMORY_SIZE,
    ensures
        runs_to(initial_state(program@, profile@), cpu@),
        cpu@.halted,
        cpu@.memory == initial_state(program@, profile@).memory,
        cpu@.window.len() <= WINDOW_CAPACITY,
{
    let mut cpu = CPU::new();
    cpu.load_program(program);
    cpu.execution_history = profile;
    assert(cpu@.memory =~= initial_state(program@, profile@).memory);
    assert(cpu@ == initial_state(program@, profile@));
    cpu.execute();
    cpu
}

} // verus!
