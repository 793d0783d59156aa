//! The peephole optimizer: strikes instruction lines that repeat what was
//! just done or do nothing. It only deletes; what stays keeps its order.

use crate::assembler::{
    address_of, advance, assemble_statements, assembled_statements, calculate_byte_size,
    collect_labels_of, collected, declares_label, instruction_lines, instruction_of, label_table,
    mnemonic, mnemonic_of, offset_at, parse_instruction, read_statements, statements,
    statements_of, total_width, width_of, AssemblyError, Fault, LabelTable,
};
use crate::assembly_laws::lemma_instruction_lines_prefix;
use crate::catalog::{Instruction, Opcode};
use crate::profile::{count_of, lookup, Profile};
use crate::text::{
    chars_of, cleaned, lemma_comment_line_says_nothing, split_words, string_views, texts, words,
    LABEL_MARKER,
};
use rayon::iter::{IntoParallelIterator, ParallelIterator};
use vstd::prelude::*;

verus! {

/// An `ADD` with this many equal `ADD`s before it is struck.
pub const ADD_THRESHOLD: usize = 2;

/// `into_par_iter` on a range, `map` and `collect` of rayon: applies `f` to
/// each index below `n` on the worker threads and collects the results into
/// a vector in the order of the indices.
#[verifier::external_body]
pub(crate) fn par_map<F: Fn(usize) -> bool + Sync + Send>(n: usize, f: F) -> (out: Vec<bool>)
    requires
        forall|i: usize| i < n ==> call_requires(f, (i,)),
    ensures
        out@.len() == n,
        forall|i: usize| i < n ==> call_ensures(f, (i,), #[trigger] out@[i as int]),
{
    (0..n).into_par_iter().map(f).collect()
}

/// What the optimizer reads in a line: the instruction it denotes, if it
/// denotes one.
pub open spec fn reading(line: Seq<char>, labels: Map<Seq<char>, usize>) -> Option<Instruction> {
    match instruction_of(line, labels) {
        Ok(instruction) => Some(instruction),
        Err(_) => None,
    }
}

/// The readings of all lines.
pub open spec fn readings(lines: Seq<Seq<char>>, labels: Map<Seq<char>, usize>) -> Seq<
    Option<Instruction>,
> {
    Seq::new(lines.len(), |i: int| reading(lines[i], labels))
}

/// For each line, the address at which it ends: that of the instruction
/// that follows it.
pub open spec fn line_ends(lines: Seq<Seq<char>>) -> Seq<usize> {
    Seq::new(lines.len(), |i: int| address_of(total_width(lines.take(i + 1))))
}

/// A `MOV` that repeats the `MOV` immediately before it.
pub open spec fn repeats_previous_move(parsed: Seq<Option<Instruction>>, i: int) -> bool {
    &&& 0 < i < parsed.len()
    &&& parsed[i] matches Some(Instruction::Mov { reg, imm })
    &&& parsed[i - 1] == parsed[i]
}

/// How many of the first `n` readings equal `what`.
pub open spec fn occurrences(
    parsed: Seq<Option<Instruction>>,
    n: int,
    what: Option<Instruction>,
) -> nat
    decreases n,
{
    if n <= 0 {
        0
    } else {
        occurrences(parsed, n - 1, what) + if parsed[n - 1] == what {
            1nat
        } else {
            0nat
        }
    }
}

/// An `ADD` that has at least the threshold of equal `ADD`s before it.
pub open spec fn repeats_add_too_often(parsed: Seq<Option<Instruction>>, i: int) -> bool {
    &&& 0 <= i < parsed.len()
    &&& parsed[i] matches Some(Instruction::Add { dst, src })
    &&& occurrences(parsed, i, parsed[i]) >= ADD_THRESHOLD
}

/// A `JMP` to the instruction that follows it.
pub open spec fn jumps_to_next(parsed: Seq<Option<Instruction>>, ends: Seq<usize>, i: int) -> bool {
    &&& 0 <= i < parsed.len()
    &&& parsed[i] matches Some(Instruction::Jmp { target })
    &&& target == ends[i]
}

/// Whether static redundancy elision strikes line `i`.
pub open spec fn redundant(parsed: Seq<Option<Instruction>>, ends: Seq<usize>, i: int) -> bool {
    repeats_previous_move(parsed, i) || repeats_add_too_often(parsed, i) || jumps_to_next(
        parsed,
        ends,
        i,
    )
}

/// The verdict on each instruction line.
pub open spec fn verdicts(lines: Seq<Seq<char>>, labels: Map<Seq<char>, usize>) -> Seq<bool> {
    Seq::new(lines.len(), |i: int| redundant(readings(lines, labels), line_ends(lines), i))
}

/// The items that are not struck, in their order.
pub open spec fn survivors<T>(items: Seq<T>, struck: Seq<bool>) -> Seq<T>
    decreases items.len(),
{
    if items.len() == 0 {
        Seq::empty()
    } else {
        let before = survivors(items.drop_last(), struck.drop_last());
        if struck.last() {
            before
        } else {
            before.push(items.last())
        }
    }
}

/// The instruction lines that static redundancy elision leaves.
pub open spec fn optimized(lines: Seq<Seq<char>>, labels: Map<Seq<char>, usize>) -> Seq<
    Seq<char>,
> {
    survivors(lines, verdicts(lines, labels))
}

/// Reads every instruction line once: what it denotes and where it ends.
pub fn read_lines(instructions: &Vec<String>, labels: &LabelTable) -> (r: (
    Vec<Option<Instruction>>,
    Vec<usize>,
))
    ensures
        r.0@ == readings(string_views(instructions@), labels@),
        r.1@ == line_ends(string_views(instructions@)),
{
    let ghost lines = string_views(instructions@);
    let mut parsed: Vec<Option<Instruction>> = Vec::new();
    let mut ends: Vec<usize> = Vec::new();
    let mut position: usize = 0;
    let mut k: usize = 0;
    assert(lines.take(0) =~= Seq::<Seq<char>>::empty());
    while k < instructions.len()
        invariant
            k <= instructions.len(),
            lines == string_views(instructions@),
            parsed@ == readings(lines, labels@).take(k as int),
            ends@ == line_ends(lines).take(k as int),
            position == address_of(total_width(lines.take(k as int))),
        decreases instructions.len() - k,
    {
        let line: &str = instructions[k].as_str();
        proof {
            assert(lines.take(k + 1).drop_last() =~= lines.take(k as int));
            assert(lines.take(k + 1).last() == line@);
        }
        let seen: Option<Instruction> = match parse_instruction(line, labels) {
            Ok(instruction) => Some(instruction),
            Err(_) => None,
        };
        let width: usize = calculate_byte_size(line);
        position = advance(position, width);
        parsed.push(seen);
        ends.push(position);
        k = k + 1;
        assert(parsed@ =~= readings(lines, labels@).take(k as int));
        assert(ends@ =~= line_ends(lines).take(k as int));
    }
    assert(parsed@ =~= readings(lines, labels@));
    assert(ends@ =~= line_ends(lines));
    (parsed, ends)
}

/// Whether the reading at `at` is a `MOV` that repeats the `MOV`
/// immediately before it.
pub fn is_redundant_move(parsed: &Vec<Option<Instruction>>, at: usize) -> (struck: bool)
    requires
        at < parsed@.len(),
    ensures
        struck == repeats_previous_move(parsed@, at as int),
{
    if at == 0 {
        return false;
    }
    match (parsed[at], parsed[at - 1]) {
        (Some(Instruction::Mov { reg, imm }), Some(Instruction::Mov { reg: r, imm: v })) => reg
            == r && imm == v,
        _ => false,
    }
}

/// Whether the reading at `at` is an `ADD` with at least the threshold of
/// equal `ADD`s before it.
pub fn is_redundant_add(parsed: &Vec<Option<Instruction>>, at: usize) -> (struck: bool)
    requires
        at < parsed@.len(),
    ensures
        struck == repeats_add_too_often(parsed@, at as int),
{
    match parsed[at] {
        Some(Instruction::Add { dst, src }) => {
            let mut seen: usize = 0;
            let mut j: usize = 0;
            while j < at
                invariant
                    j <= at < parsed@.len(),
                    parsed@[at as int] == Some(Instruction::Add { dst, src }),
                    seen == occurrences(parsed@, j as int, parsed@[at as int]),
                    seen <= j,
                decreases at - j,
            {
                let same: bool = match parsed[j] {
                    Some(Instruction::Add { dst: d, src: s }) => d == dst && s == src,
                    _ => false,
                };
                if same {
                    seen = seen + 1;
                }
                j = j + 1;
            }
            seen >= ADD_THRESHOLD
        },
        _ => false,
    }
}

/// Whether the reading at `at` is a `JMP` to the instruction that follows
/// it.
pub fn is_noop_jump(parsed: &Vec<Option<Instruction>>, ends: &Vec<usize>, at: usize) -> (struck:
    bool)
    requires
        at < parsed@.len(),
        parsed@.len() == ends@.len(),
    ensures
        struck == jumps_to_next(parsed@, ends@, at as int),
{
    match parsed[at] {
        Some(Instruction::Jmp { target }) => target as usize == ends[at],
        _ => false,
    }
}

/// The verdict of static redundancy elision on the line at `at`. It depends
/// on the readings alone, never on another verdict.
pub fn is_redundant(parsed: &Vec<Option<Instruction>>, ends: &Vec<usize>, at: usize) -> (struck:
    bool)
    requires
        at < parsed@.len(),
        parsed@.len() == ends@.len(),
    ensures
        struck == redundant(parsed@, ends@, at as int),
{
    is_redundant_move(parsed, at) || is_redundant_add(parsed, at) || is_noop_jump(parsed, ends, at)
}

/// The lines that are not struck, in their order.
pub fn keep_survivors(lines: &Vec<String>, struck: &Vec<bool>) -> (out: Vec<String>)
    requires
        lines@.len() == struck@.len(),
    ensures
        out@ == survivors(lines@, struck@),
        string_views(out@) == survivors(string_views(lines@), struck@),
{
    let mut out: Vec<String> = Vec::new();
    let mut k: usize = 0;
    assert(lines@.take(0) =~= Seq::<String>::empty());
    assert(string_views(lines@).take(0) =~= Seq::<Seq<char>>::empty());
    assert(string_views(out@) =~= Seq::<Seq<char>>::empty());
    while k < lines.len()
        invariant
            k <= lines.len(),
            lines@.len() == struck@.len(),
            out@ == survivors(lines@.take(k as int), struck@.take(k as int)),
            string_views(out@) == survivors(
                string_views(lines@).take(k as int),
                struck@.take(k as int),
            ),
        decreases lines.len() - k,
    {
        proof {
            assert(lines@.take(k + 1).drop_last() =~= lines@.take(k as int));
            assert(struck@.take(k + 1).drop_last() =~= struck@.take(k as int));
            assert(string_views(lines@).take(k + 1).drop_last() =~= string_views(lines@).take(
                k as int,
            ));
        }
        if !struck[k] {
            let ghost before = string_views(out@);
            let line: String = lines[k].clone();
            out.push(line);
            assert(string_views(out@) =~= before.push(lines@[k as int]@));
        }
        k = k + 1;
    }
    assert(lines@.take(k as int) =~= lines@);
    assert(struck@.take(k as int) =~= struck@);
    assert(string_views(lines@).take(k as int) =~= string_views(lines@));
    out
}

/// Reaches the verdict on every instruction line, in parallel.
pub fn judge(instructions: &Vec<String>, labels: &LabelTable) -> (struck: Vec<bool>)
    ensures
        struck@ == verdicts(string_views(instructions@), labels@),
{
    let (parsed, ends) = read_lines(instructions, labels);
    let n: usize = instructions.len();
    let verdict = |i: usize| -> (struck: bool)
        requires
            i < parsed@.len(),
            parsed@.len() == ends@.len(),
        ensures
            struck == redundant(parsed@, ends@, i as int),
        { is_redundant(&parsed, &ends, i) };
    let struck: Vec<bool> = par_map(n, verdict);
    assert(struck@ =~= verdicts(string_views(instructions@), labels@));
    struck
}

/// Static redundancy elision over the instruction lines of a program, with
/// the label table as context. Strikes each `MOV` that repeats the `MOV`
/// immediately before it, each `ADD` that has two equal `ADD`s before it,
/// and each `JMP` to the instruction that follows it. The verdicts are
/// reached in parallel; the lines that stay keep their order.
pub fn optimize_assembly(instructions: &Vec<String>, labels: &LabelTable) -> (out: Vec<String>)
    ensures
        string_views(out@) == optimized(string_views(instructions@), labels@),
{
    let struck: Vec<bool> = judge(instructions, labels);
    keep_survivors(instructions, &struck)
}

/// The statements without the instruction lines that are struck; `struck`
/// holds one verdict for each instruction line. Label declarations stay.
pub open spec fn elided(statements: Seq<Seq<char>>, struck: Seq<bool>) -> Seq<Seq<char>>
    decreases statements.len(),
{
    if statements.len() == 0 {
        Seq::empty()
    } else {
        let before = elided(statements.drop_last(), struck);
        let line = instruction_lines(statements.drop_last()).len() as int;
        if declares_label(statements.last()) || !struck[line] {
            before.push(statements.last())
        } else {
            before
        }
    }
}

/// The statements that static redundancy elision leaves, judged under the
/// labels of the statements as they stand.
pub open spec fn optimized_statements(statements: Seq<Seq<char>>) -> Seq<Seq<char>> {
    elided(statements, verdicts(instruction_lines(statements), label_table(statements)))
}

/// What the assembler makes of a source text after elision. The labels are
/// collected once to judge the instruction lines, and again from what the
/// elision leaves: every address in the result is one of the optimized
/// program.
pub open spec fn assembled_optimized(source: Seq<char>) -> Result<
    (Seq<u8>, Map<Seq<char>, usize>),
    Fault,
> {
    match collected(statements(source)) {
        Err(fault) => Err(fault),
        Ok(_) => assembled_statements(optimized_statements(statements(source))),
    }
}

fn copy_text(text: &Vec<char>) -> (out: Vec<char>)
    ensures
        out@ == text@,
{
    let mut out: Vec<char> = Vec::new();
    let mut i: usize = 0;
    while i < text.len()
        invariant
            i <= text.len(),
            out@ == text@.take(i as int),
        decreases text.len() - i,
    {
        out.push(text[i]);
        i = i + 1;
        assert(out@ =~= text@.take(i as int));
    }
    assert(text@.take(i as int) =~= text@);
    out
}

/// Strikes instruction lines from statements.
pub fn elide(stmts: &Vec<Vec<char>>, struck: &Vec<bool>) -> (out: Vec<Vec<char>>)
    requires
        struck@.len() == instruction_lines(texts(stmts@)).len(),
    ensures
        texts(out@) == elided(texts(stmts@), struck@),
{
    let ghost all = texts(stmts@);
    let mut out: Vec<Vec<char>> = Vec::new();
    let mut line: usize = 0;
    let mut k: usize = 0;
    let total: usize = struck.len();
    assert(all.take(0) =~= Seq::<Seq<char>>::empty());
    assert(texts(out@) =~= Seq::<Seq<char>>::empty());
    while k < stmts.len()
        invariant
            k <= stmts.len(),
            all == texts(stmts@),
            total == struck@.len(),
            struck@.len() == instruction_lines(all).len(),
            line == instruction_lines(all.take(k as int)).len(),
            texts(out@) == elided(all.take(k as int), struck@),
        decreases stmts.len() - k,
    {
        let stmt: &Vec<char> = &stmts[k];
        proof {
            assert(all.take(k + 1).drop_last() =~= all.take(k as int));
            assert(all.take(k + 1).last() == stmt@);
            lemma_instruction_lines_prefix(all, k + 1);
        }
        let ghost before = texts(out@);
        if stmt.len() > 0 && stmt[stmt.len() - 1] == LABEL_MARKER {
            out.push(copy_text(stmt));
            assert(texts(out@) =~= before.push(stmt@));
        } else {
            if !struck[line] {
                out.push(copy_text(stmt));
                assert(texts(out@) =~= before.push(stmt@));
            }
            line = line + 1;
        }
        k = k + 1;
    }
    assert(all.take(k as int) =~= all);
    out
}

/// Assembles a source text with static redundancy elision: judges the
/// instruction lines, strikes the redundant ones from the statements, and
/// assembles what is left, collecting the labels anew.
pub fn assemble_optimized(source: &str) -> (r: Result<(Vec<u8>, LabelTable), AssemblyError>)
    ensures
        match r {
            Ok((bytes, labels)) => labels.wf() && assembled_optimized(source@) == Ok::<
                (Seq<u8>, Map<Seq<char>, usize>),
                Fault,
            >((bytes@, labels@)),
            Err(e) => assembled_optimized(source@) == Err::<
                (Seq<u8>, Map<Seq<char>, usize>),
                Fault,
            >(e@),
        },
{
    let stmts: Vec<Vec<char>> = read_statements(source);
    match collect_labels_of(&stmts) {
        Err(e) => Err(e),
        Ok((labels, lines)) => {
            let struck: Vec<bool> = judge(&lines, &labels);
            let left: Vec<Vec<char>> = elide(&stmts, &struck);
            assemble_statements(&left)
        },
    }
}

/// How many of the verdicts strike.
pub open spec fn struck_count(struck: Seq<bool>) -> nat
    decreases struck.len(),
{
    if struck.len() == 0 {
        0
    } else {
        struck_count(struck.drop_last()) + if struck.last() {
            1nat
        } else {
            0nat
        }
    }
}

/// Elision only deletes. What survives is as many items as were not struck,
/// and each survivor is an item that was not struck, at a position that
/// grows with the survivor's own: nothing is inserted and nothing changes
/// places.
pub proof fn lemma_survivors_keep_order<T>(items: Seq<T>, struck: Seq<bool>) -> (positions: Seq<
    int,
>)
    requires
        items.len() == struck.len(),
    ensures
        survivors(items, struck).len() + struck_count(struck) == items.len(),
        positions.len() == survivors(items, struck).len(),
        forall|k: int|
            0 <= k < positions.len() ==> 0 <= #[trigger] positions[k] < items.len()
                && !struck[positions[k]] && survivors(items, struck)[k] == items[positions[k]],
        forall|j: int, k: int|
            0 <= j < k < positions.len() ==> #[trigger] positions[j] < #[trigger] positions[k],
    decreases items.len(),
{
    if items.len() == 0 {
        Seq::empty()
    } else {
        let before = lemma_survivors_keep_order(items.drop_last(), struck.drop_last());
        if struck.last() {
            before
        } else {
            before.push(items.len() - 1)
        }
    }
}

/// A `MOV` at an address executed more often than this is worn out.
pub const MOV_FREQUENCY: usize = 5;

/// An `ADD` at an address executed more often than this is worn out.
pub const ADD_FREQUENCY: usize = 3;

/// The class of a statement: the opcode that its first word names. A label
/// declaration has none.
pub open spec fn class_of(statement: Seq<char>) -> Option<Opcode> {
    if declares_label(statement) || words(statement).len() == 0 {
        None
    } else {
        mnemonic_of(words(statement)[0])
    }
}

/// Whether an instruction of this class is worn out after so many
/// executions.
pub open spec fn exhausted(class: Option<Opcode>, executions: usize) -> bool {
    match class {
        Some(Opcode::Mov) => executions > MOV_FREQUENCY,
        Some(Opcode::Add) => executions > ADD_FREQUENCY,
        _ => false,
    }
}

/// Whether the profile shows the statement at `k` to be worn out: judged by
/// the executions of the address at which the statement stands.
pub open spec fn worn_out(statements: Seq<Seq<char>>, profile: Map<usize, usize>, k: int) -> bool {
    exhausted(
        class_of(statements[k]),
        count_of(profile, address_of(offset_at(statements, k))),
    )
}

/// What turns a line into a comment that says why.
pub open spec fn annotation_head() -> Seq<char> {
    "; AI OPTIMIZED: "@
}

/// The statements with each worn-out one turned into a comment.
pub open spec fn annotated(statements: Seq<Seq<char>>, profile: Map<usize, usize>) -> Seq<
    Seq<char>,
> {
    Seq::new(
        statements.len(),
        |k: int|
            if worn_out(statements, profile, k) {
                annotation_head() + statements[k]
            } else {
                statements[k]
            },
    )
}

/// The class of a statement.
pub fn classify(statement: &str) -> (class: Option<Opcode>)
    ensures
        class == class_of(statement@),
        !declares_label(statement@) ==> width_of(statement@) == match class {
            Some(op) => op.spec_width(),
            None => 0,
        },
{
    let text: Vec<char> = chars_of(statement);
    if text.len() > 0 && text[text.len() - 1] == LABEL_MARKER {
        return None;
    }
    let w: Vec<Vec<char>> = split_words(&text);
    if w.len() == 0 {
        None
    } else {
        assert(texts(w@)[0] == w@[0]@);
        mnemonic(&w[0])
    }
}

/// Whether an instruction of this class is worn out after so many
/// executions.
pub fn is_exhausted(class: Option<Opcode>, executions: usize) -> (worn: bool)
    ensures
        worn == exhausted(class, executions),
{
    match class {
        Some(Opcode::Mov) => executions > MOV_FREQUENCY,
        Some(Opcode::Add) => executions > ADD_FREQUENCY,
        _ => false,
    }
}

/// Profile-guided elision in its textual form. Each instruction line whose
/// address the profile shows as executed more often than the threshold of
/// its class is turned into a comment, so that assembling the result leaves
/// it out and binds the labels anew; every other statement stays as it is.
/// The verdicts are reached in parallel.
pub fn annotate_by_profile(statements: &Vec<String>, profile: &Profile) -> (out: Vec<String>)
    ensures
        string_views(out@) == annotated(string_views(statements@), profile@),
{
    let ghost all = string_views(statements@);
    let n: usize = statements.len();
    let mut classes: Vec<Option<Opcode>> = Vec::new();
    let mut addresses: Vec<usize> = Vec::new();
    let mut position: usize = 0;
    let mut k: usize = 0;
    assert(all.take(0) =~= Seq::<Seq<char>>::empty());
    while k < n
        invariant
            k <= n == statements@.len(),
            all == string_views(statements@),
            classes@.len() == k,
            addresses@.len() == k,
            forall|j: int| 0 <= j < k ==> classes@[j] == class_of(#[trigger] all[j]),
            forall|j: int|
                0 <= j < k ==> (#[trigger] addresses@[j]) == address_of(offset_at(all, j)),
            position == address_of(offset_at(all, k as int)),
        decreases n - k,
    {
        let line: &str = statements[k].as_str();
        proof {
            assert(all.take(k + 1).drop_last() =~= all.take(k as int));
            assert(all.take(k + 1).last() == line@);
            let lines = instruction_lines(all.take(k as int));
            assert(lines.push(line@).drop_last() =~= lines);
        }
        let class: Option<Opcode> = classify(line);
        classes.push(class);
        addresses.push(position);
        let width: usize = match class {
            Some(op) => op.width(),
            None => 0,
        };
        position = advance(position, width);
        k = k + 1;
    }
    let verdict = |i: usize| -> (worn: bool)
        requires
            i < classes@.len(),
            classes@.len() == addresses@.len(),
        ensures
            worn == exhausted(classes@[i as int], count_of(profile@, addresses@[i as int])),
        { is_exhausted(classes[i], lookup(profile, addresses[i])) };
    let struck: Vec<bool> = par_map(n, verdict);
    let mut out: Vec<String> = Vec::new();
    let mut i: usize = 0;
    while i < n
        invariant
            i <= n == statements@.len() == struck@.len(),
            all == string_views(statements@),
            out@.len() == i,
            forall|j: int| 0 <= j < n ==> struck@[j] == worn_out(all, profile@, j),
            forall|j: int| 0 <= j < i ==> (#[trigger] out@[j])@ == annotated(all, profile@)[j],
        decreases n - i,
    {
        let line: String = if struck[i] {
            let head: String = "; AI OPTIMIZED: ".to_owned();
            head.concat(statements[i].as_str())
        } else {
            statements[i].clone()
        };
        out.push(line);
        i = i + 1;
    }
    assert(string_views(out@) =~= annotated(all, profile@));
    out
}

/// Of two identical `MOV` lines in a row the second is struck and the first
/// stays: a program of just those two lines loses exactly one.
pub proof fn lemma_repeated_move_is_struck(lines: Seq<Seq<char>>, labels: Map<Seq<char>, usize>)
    requires
        lines.len() == 2,
        reading(lines[0], labels) is Some,
        reading(lines[0], labels)->0 is Mov,
        reading(lines[1], labels) == reading(lines[0], labels),
    ensures
        optimized(lines, labels) == seq![lines[0]],
        optimized(lines, labels).len() == lines.len() - 1,
{
    let struck = verdicts(lines, labels);
    let parsed = readings(lines, labels);
    assert(parsed[0] == reading(lines[0], labels));
    assert(parsed[1] == reading(lines[1], labels));
    assert(repeats_previous_move(parsed, 1));
    assert(!repeats_previous_move(parsed, 0));
    assert(!repeats_add_too_often(parsed, 0));
    assert(!jumps_to_next(parsed, line_ends(lines), 0));
    assert(struck[1]);
    assert(!struck[0]);
    let first = lines.drop_last();
    assert(first.drop_last().len() == 0);
    assert(first.last() == lines[0]);
    assert(struck.drop_last().last() == struck[0]);
    assert(survivors(first.drop_last(), struck.drop_last().drop_last()).len() == 0);
    assert(survivors(first, struck.drop_last()) =~= seq![lines[0]]);
    assert(survivors(lines, struck) =~= seq![lines[0]]);
}

/// A line that was turned into a comment says nothing: assembling leaves it
/// out, whatever the line was.
pub proof fn lemma_annotation_says_nothing(line: Seq<char>)
    ensures
        cleaned(annotation_head() + line) == Seq::<char>::empty(),
{
    reveal_strlit("; AI OPTIMIZED: ");
    let marked = annotation_head() + line;
    assert(annotation_head().len() == 16);
    assert(marked[0] == annotation_head()[0]);
    lemma_comment_line_says_nothing(marked);
}

/// The statements among the first `n` that the profile does not show to be
/// worn out, in their order.
pub open spec fn unworn(statements: Seq<Seq<char>>, profile: Map<usize, usize>, n: int) -> Seq<
    Seq<char>,
>
    decreases n,
{
    if n <= 0 {
        Seq::empty()
    } else {
        let before = unworn(statements, profile, n - 1);
        if worn_out(statements, profile, n - 1) {
            before
        } else {
            before.push(statements[n - 1])
        }
    }
}

/// Profile-guided elision keeps worn-out lines out of the next assembly.
/// Where each line handed in is a statement, what the annotated lines say
/// when they are read again is the statements that are not worn out, in
/// their order: the marked lines are gone, and the labels are bound anew
/// over what is left.
pub proof fn lemma_annotated_reads_as_unworn(
    statements: Seq<Seq<char>>,
    profile: Map<usize, usize>,
    n: int,
)
    requires
        0 <= n <= statements.len(),
        forall|k: int|
            0 <= k < statements.len() ==> (#[trigger] statements[k]).len() > 0 && cleaned(
                statements[k],
            ) == statements[k],
    ensures
        statements_of(annotated(statements, profile).take(n)) == unworn(statements, profile, n),
    decreases n,
{
    let marked = annotated(statements, profile);
    if n > 0 {
        lemma_annotated_reads_as_unworn(statements, profile, n - 1);
        assert(marked.take(n).drop_last() =~= marked.take(n - 1));
        assert(marked.take(n).last() == marked[n - 1]);
        assert(statements[n - 1].len() > 0);
        if worn_out(statements, profile, n - 1) {
            lemma_annotation_says_nothing(statements[n - 1]);
        }
    } else {
        assert(marked.take(0) =~= Seq::<Seq<char>>::empty());
    }
}

} // verus!
