//! What holds of every assembly: where labels point, and which faults end
//! an assembly.

use crate::assembler::{
    address_of, assembled, collected, declares_label, first_duplicate, instruction_lines,
    label_name, label_table, lemma_first_duplicate_stays, lemma_first_fault_stays,
    mnemonic_of, offset_at, statements, total_width, program_of, instruction_of, width_of, Fault,
};
use crate::catalog::{all_wf, decode_all, encode_all, lemma_round_trip, Instruction, Opcode};
use crate::text::words;
use vstd::prelude::*;

verus! {

/// A prefix of statements without duplicate has none in any shorter prefix.
proof fn lemma_no_duplicate_before(statements: Seq<Seq<char>>, n: int)
    requires
        0 <= n <= statements.len(),
        first_duplicate(statements) is None,
    ensures
        first_duplicate(statements.take(n)) is None,
{
    if first_duplicate(statements.take(n)) is Some {
        lemma_first_duplicate_stays(statements, n);
    }
}

/// Among the first `n` statements, a label declared at `k` is in the table.
proof fn lemma_label_declared(statements: Seq<Seq<char>>, k: int, n: int)
    requires
        0 <= k < n <= statements.len(),
        declares_label(statements[k]),
    ensures
        label_table(statements.take(n)).contains_key(label_name(statements[k])),
    decreases n,
{
    assert(statements.take(n).drop_last() =~= statements.take(n - 1));
    if n - 1 > k {
        lemma_label_declared(statements, k, n - 1);
    }
}

/// Among the first `n` statements, if no label is declared twice, a label
/// declared at `k` is bound to the offset at which its declaration stands.
proof fn lemma_label_bound(statements: Seq<Seq<char>>, k: int, n: int)
    requires
        0 <= k < n <= statements.len(),
        declares_label(statements[k]),
        first_duplicate(statements.take(n)) is None,
    ensures
        label_table(statements.take(n)).contains_key(label_name(statements[k])),
        label_table(statements.take(n))[label_name(statements[k])] == address_of(
            offset_at(statements, k),
        ),
    decreases n,
{
    let upto = statements.take(n);
    assert(upto.drop_last() =~= statements.take(n - 1));
    assert(upto.last() == statements[n - 1]);
    if n - 1 == k {
        assert(upto.take(k) =~= statements.take(k));
    } else {
        lemma_label_bound(statements, k, n - 1);
    }
}

/// Labels point where the instructions before them end. In a source text
/// that declares no label twice, the table binds each label to the sum of
/// the widths of all instruction lines before its declaration; label
/// declarations themselves count nothing.
pub proof fn lemma_label_address(source: Seq<char>, k: int)
    requires
        first_duplicate(statements(source)) is None,
        0 <= k < statements(source).len(),
        declares_label(statements(source)[k]),
        offset_at(statements(source), k) <= usize::MAX,
    ensures
        collected(statements(source)) is Ok,
        label_table(statements(source)).contains_key(label_name(statements(source)[k])),
        label_table(statements(source))[label_name(statements(source)[k])] == total_width(
            instruction_lines(statements(source).take(k)),
        ),
{
    let all = statements(source);
    assert(all.take(all.len() as int) =~= all);
    lemma_label_bound(all, k, all.len() as int);
}

/// The width that pass 1 counts for a line that pass 2 accepts is the width
/// of the line's encoding.
pub proof fn lemma_width_of_instruction(line: Seq<char>, labels: Map<Seq<char>, usize>)
    requires
        instruction_of(line, labels) is Ok,
    ensures
        width_of(line) == instruction_of(line, labels)->Ok_0.encoding().len(),
        instruction_of(line, labels)->Ok_0.wf(),
{
}

/// The instruction lines among the first `k` statements are the first of
/// all instruction lines.
pub proof fn lemma_instruction_lines_prefix(statements: Seq<Seq<char>>, k: int)
    requires
        0 <= k <= statements.len(),
    ensures
        instruction_lines(statements.take(k)).len() <= instruction_lines(statements).len(),
        instruction_lines(statements.take(k)) == instruction_lines(statements).take(
            instruction_lines(statements.take(k)).len() as int,
        ),
    decreases statements.len() - k,
{
    if k == statements.len() {
        assert(statements.take(k) =~= statements);
        assert(instruction_lines(statements).take(instruction_lines(statements).len() as int)
            =~= instruction_lines(statements));
    } else {
        lemma_instruction_lines_prefix(statements, k + 1);
        assert(statements.take(k + 1).drop_last() =~= statements.take(k));
        let longer = instruction_lines(statements.take(k + 1));
        let shorter = instruction_lines(statements.take(k));
        assert(shorter =~= longer.take(shorter.len() as int));
        assert(longer.take(shorter.len() as int) =~= instruction_lines(statements).take(
            shorter.len() as int,
        ));
    }
}

/// A program that pass 2 produces has one instruction for each line, and
/// its first `m` instructions are what pass 2 makes of the first `m` lines;
/// their encoding is as long as pass 1 counted.
proof fn lemma_program_prefix(lines: Seq<Seq<char>>, labels: Map<Seq<char>, usize>, m: int)
    requires
        0 <= m <= lines.len(),
        program_of(lines, labels) is Ok,
    ensures
        program_of(lines, labels)->Ok_0.len() == lines.len(),
        program_of(lines.take(m), labels) == Ok::<Seq<Instruction>, Fault>(
            program_of(lines, labels)->Ok_0.take(m),
        ),
        encode_all(program_of(lines, labels)->Ok_0.take(m)).len() == total_width(lines.take(m)),
    decreases lines.len(),
{
    let program = program_of(lines, labels)->Ok_0;
    if lines.len() == 0 {
        assert(lines.take(m) =~= lines);
        assert(program.take(m) =~= program);
    } else {
        let shorter = lines.drop_last();
        lemma_program_prefix(shorter, labels, shorter.len() as int);
        assert(shorter.take(shorter.len() as int) =~= shorter);
        let before = program_of(shorter, labels)->Ok_0;
        assert(before.take(shorter.len() as int) =~= before);
        assert(program.drop_last() =~= before);
        if m == lines.len() {
            assert(lines.take(m) =~= lines);
            assert(program.take(m) =~= program);
            lemma_width_of_instruction(lines.last(), labels);
        } else {
            lemma_program_prefix(shorter, labels, m);
            assert(shorter.take(m) =~= lines.take(m));
            assert(before.take(m) =~= program.take(m));
        }
    }
}

/// Labels point into the bytecode. In a source text that assembles, each
/// label is bound to the length of the encoding of the instructions that
/// stand before its declaration: the address of the instruction that
/// follows it, or the end of the program.
pub proof fn lemma_label_points_behind_preceding_code(source: Seq<char>, k: int)
    requires
        assembled(source) is Ok,
        0 <= k < statements(source).len(),
        declares_label(statements(source)[k]),
        offset_at(statements(source), k) <= usize::MAX,
    ensures
        ({
            let labels = assembled(source)->Ok_0.1;
            let program = program_of(instruction_lines(statements(source)), labels)->Ok_0;
            let preceding = instruction_lines(statements(source).take(k)).len() as int;
            &&& assembled(source)->Ok_0.0 == encode_all(program)
            &&& preceding <= program.len()
            &&& labels.contains_key(label_name(statements(source)[k]))
            &&& labels[label_name(statements(source)[k])] == encode_all(
                program.take(preceding),
            ).len()
        }),
{
    let all = statements(source);
    let lines = instruction_lines(all);
    lemma_label_address(source, k);
    lemma_instruction_lines_prefix(all, k);
    let preceding = instruction_lines(all.take(k)).len() as int;
    lemma_program_prefix(lines, label_table(all), preceding);
}

/// A repeated label is never overwritten: a source text in which two
/// declarations name the same label does not assemble, and the fault is a
/// duplicate label.
pub proof fn lemma_duplicate_label_rejected(source: Seq<char>, i: int, j: int)
    requires
        0 <= i < j < statements(source).len(),
        declares_label(statements(source)[i]),
        declares_label(statements(source)[j]),
        label_name(statements(source)[i]) == label_name(statements(source)[j]),
    ensures
        assembled(source) is Err,
        assembled(source)->Err_0 is DuplicateLabel,
{
    let all = statements(source);
    assert(all.take(j + 1).drop_last() =~= all.take(j));
    assert(all.take(j + 1).last() == all[j]);
    lemma_label_declared(all, i, j);
    assert(first_duplicate(all.take(j + 1)) is Some);
    lemma_first_duplicate_stays(all, j + 1);
}

/// The lines before `m` are all in order, so pass 2 gets as far as line `m`.
proof fn lemma_program_so_far(lines: Seq<Seq<char>>, labels: Map<Seq<char>, usize>, m: int)
    requires
        0 <= m <= lines.len(),
        forall|j: int| 0 <= j < m ==> (#[trigger] instruction_of(lines[j], labels)) is Ok,
    ensures
        program_of(lines.take(m), labels) is Ok,
    decreases m,
{
    if m > 0 {
        lemma_program_so_far(lines, labels, m - 1);
        assert(lines.take(m).drop_last() =~= lines.take(m - 1));
        assert(lines.take(m).last() == lines[m - 1]);
    }
}

/// A jump to a label that is declared nowhere ends the assembly: no bytes
/// are produced.
pub proof fn lemma_undefined_label_rejected(source: Seq<char>, m: int)
    requires
        0 <= m < instruction_lines(statements(source)).len(),
        words(instruction_lines(statements(source))[m]).len() == 2,
        mnemonic_of(words(instruction_lines(statements(source))[m])[0]) == Some(Opcode::Jmp),
        !label_table(statements(source)).contains_key(
            words(instruction_lines(statements(source))[m])[1],
        ),
    ensures
        assembled(source) is Err,
{
    let all = statements(source);
    let lines = instruction_lines(all);
    if first_duplicate(all) is None {
        let labels = label_table(all);
        assert(lines.take(m + 1).drop_last() =~= lines.take(m));
        assert(lines.take(m + 1).last() == lines[m]);
        assert(instruction_of(lines[m], labels) is Err);
        lemma_first_fault_stays(lines, labels, m + 1);
    }
}

/// Where no label is declared twice and every earlier instruction line is
/// in order, a jump to a label that is declared nowhere is the fault that
/// the assembly reports.
pub proof fn lemma_undefined_label_reported(source: Seq<char>, m: int)
    requires
        first_duplicate(statements(source)) is None,
        0 <= m < instruction_lines(statements(source)).len(),
        forall|j: int|
            0 <= j < m ==> (#[trigger] instruction_of(
                instruction_lines(statements(source))[j],
                label_table(statements(source)),
            )) is Ok,
        words(instruction_lines(statements(source))[m]).len() == 2,
        mnemonic_of(words(instruction_lines(statements(source))[m])[0]) == Some(Opcode::Jmp),
        !label_table(statements(source)).contains_key(
            words(instruction_lines(statements(source))[m])[1],
        ),
    ensures
        assembled(source) == Err::<(Seq<u8>, Map<Seq<char>, usize>), Fault>(
            Fault::UndefinedLabel(words(instruction_lines(statements(source))[m])[1]),
        ),
{
    let all = statements(source);
    let lines = instruction_lines(all);
    let labels = label_table(all);
    lemma_program_so_far(lines, labels, m);
    assert(lines.take(m + 1).drop_last() =~= lines.take(m));
    assert(lines.take(m + 1).last() == lines[m]);
    lemma_first_fault_stays(lines, labels, m + 1);
}

/// Assembly is a function of what the source says: two texts with the same
/// statements assemble to the same bytes and labels, or fail alike.
pub proof fn lemma_same_statements_same_assembly(a: Seq<char>, b: Seq<char>)
    requires
        statements(a) == statements(b),
    ensures
        assembled(a) == assembled(b),
{
}

/// An instruction line whose first word is no mnemonic counts no width in
/// pass 1; it never passes silently, for it ends the assembly.
pub proof fn lemma_unknown_mnemonic_rejected(source: Seq<char>, m: int)
    requires
        0 <= m < instruction_lines(statements(source)).len(),
        words(instruction_lines(statements(source))[m]).len() == 0 || mnemonic_of(
            words(instruction_lines(statements(source))[m])[0],
        ) is None,
    ensures
        width_of(instruction_lines(statements(source))[m]) == 0,
        assembled(source) is Err,
{
    let all = statements(source);
    let lines = instruction_lines(all);
    if first_duplicate(all) is None {
        let labels = label_table(all);
        assert(lines.take(m + 1).drop_last() =~= lines.take(m));
        assert(lines.take(m + 1).last() == lines[m]);
        assert(instruction_of(lines[m], labels) is Err);
        lemma_first_fault_stays(lines, labels, m + 1);
    }
}

/// Every instruction of a program that pass 2 produces is well formed.
proof fn lemma_program_well_formed(lines: Seq<Seq<char>>, labels: Map<Seq<char>, usize>)
    requires
        program_of(lines, labels) is Ok,
    ensures
        all_wf(program_of(lines, labels)->Ok_0),
    decreases lines.len(),
{
    if lines.len() > 0 {
        lemma_program_well_formed(lines.drop_last(), labels);
        lemma_width_of_instruction(lines.last(), labels);
    }
}

/// What the assembler emits is a valid program: its bytes decode, with no
/// byte left over and no operand cut short, to the instructions that the
/// instruction lines denote.
pub proof fn lemma_assembled_decodes(source: Seq<char>)
    requires
        assembled(source) is Ok,
    ensures
        decode_all(assembled(source)->Ok_0.0) == Some(
            program_of(instruction_lines(statements(source)), assembled(source)->Ok_0.1)->Ok_0,
        ),
{
    let labels = label_table(statements(source));
    let lines = instruction_lines(statements(source));
    lemma_program_well_formed(lines, labels);
    lemma_round_trip(program_of(lines, labels)->Ok_0);
}

} // verus!
