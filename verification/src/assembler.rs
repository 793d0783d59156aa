//! The two-pass assembler. Pass 1 binds each label to the byte offset of the
//! instruction that follows it; pass 2 validates each instruction and encodes
//! it, resolving label references to addresses.

use crate::catalog::{encode_all, Instruction, Opcode};
use crate::text::{
    chars_of, clean_line, cleaned, immediate_of, parse_register, parse_value, register_of,
    source_lines, split_lines, split_words, string_of, string_views, strip_markers, texts,
    without_markers, words, LABEL_MARKER,
};
use vstd::prelude::*;

verus! {

/// The largest address that a jump can name.
pub const MAX_JUMP_TARGET: usize = 255;

/// Why a source text does not assemble. Each of these ends the assembly; no
/// bytes are produced.
#[derive(Clone, Debug, PartialEq, Eq)]
pub enum AssemblyError {
    /// The label is declared a second time.
    DuplicateLabel(String),
    /// The line starts with no mnemonic of the catalog.
    UnknownInstruction(String),
    /// The line has the wrong number of operands, or a register or an
    /// immediate that is out of range.
    MalformedOperands(String),
    /// The label is the target of a jump and is declared nowhere.
    UndefinedLabel(String),
    /// The label is the target of a jump and lies beyond the largest address
    /// that a jump can name.
    AddressOutOfRange(String),
}

/// An assembly error with its text as a sequence of characters.
pub enum Fault {
    DuplicateLabel(Seq<char>),
    UnknownInstruction(Seq<char>),
    MalformedOperands(Seq<char>),
    UndefinedLabel(Seq<char>),
    AddressOutOfRange(Seq<char>),
}

impl View for AssemblyError {
    type V = Fault;

    open spec fn view(&self) -> Fault {
        match self {
            AssemblyError::DuplicateLabel(s) => Fault::DuplicateLabel(s@),
            AssemblyError::UnknownInstruction(s) => Fault::UnknownInstruction(s@),
            AssemblyError::MalformedOperands(s) => Fault::MalformedOperands(s@),
            AssemblyError::UndefinedLabel(s) => Fault::UndefinedLabel(s@),
            AssemblyError::AddressOutOfRange(s) => Fault::AddressOutOfRange(s@),
        }
    }
}

/// A label and the byte address it is bound to.
#[derive(Clone, Debug, PartialEq, Eq)]
pub struct LabelEntry {
    pub name: String,
    pub address: usize,
}

/// The labels of a program in the order of their declaration.
#[derive(Clone, Debug, PartialEq, Eq)]
pub struct LabelTable {
    pub entries: Vec<LabelEntry>,
}

/// The mapping that a list of bindings stands for; of two bindings of one
/// name the later one counts.
pub open spec fn bindings(entries: Seq<LabelEntry>) -> Map<Seq<char>, usize>
    decreases entries.len(),
{
    if entries.len() == 0 {
        Map::empty()
    } else {
        bindings(entries.drop_last()).insert(entries.last().name@, entries.last().address)
    }
}

impl View for LabelTable {
    type V = Map<Seq<char>, usize>;

    open spec fn view(&self) -> Map<Seq<char>, usize> {
        bindings(self.entries@)
    }
}

/// No name is bound twice.
pub open spec fn names_distinct(entries: Seq<LabelEntry>) -> bool {
    forall|i: int, j: int|
        0 <= i < j < entries.len() ==> (#[trigger] entries[i]).name@ != (#[trigger] entries[j]).name@
}

/// Every name of the list is a key of the mapping it stands for.
pub proof fn lemma_bindings_hold_names(entries: Seq<LabelEntry>, i: int)
    requires
        0 <= i < entries.len(),
    ensures
        bindings(entries).contains_key(entries[i].name@),
    decreases entries.len(),
{
    if i < entries.len() - 1 {
        lemma_bindings_hold_names(entries.drop_last(), i);
    }
}

impl LabelTable {
    /// The table's invariant: no label is declared twice.
    pub open spec fn wf(&self) -> bool {
        names_distinct(self.entries@)
    }

    /// The table without labels.
    pub fn new() -> (table: Self)
        ensures
            table.wf(),
            table@ == Map::<Seq<char>, usize>::empty(),
    {
        LabelTable { entries: Vec::new() }
    }

    /// The address that the label is bound to, if it is declared.
    pub fn lookup(&self, name: &String) -> (address: Option<usize>)
        ensures
            address == if self@.contains_key(name@) {
                Some(self@[name@])
            } else {
                None
            },
    {
        let mut i: usize = self.entries.len();
        assert(self.entries@.take(i as int) =~= self.entries@);
        while i > 0
            invariant
                i <= self.entries.len(),
                self@.contains_key(name@) == bindings(self.entries@.take(i as int)).contains_key(
                    name@,
                ),
                self@.contains_key(name@) ==> self@[name@] == bindings(
                    self.entries@.take(i as int),
                )[name@],
            decreases i,
        {
            assert(self.entries@.take(i as int).drop_last() =~= self.entries@.take(i - 1));
            if self.entries[i - 1].name == *name {
                return Some(self.entries[i - 1].address);
            }
            i = i - 1;
        }
        None
    }

    /// The address that the label is bound to, if it is declared.
    pub fn get(&self, name: &str) -> (address: Option<usize>)
        ensures
            address == if self@.contains_key(name@) {
                Some(self@[name@])
            } else {
                None
            },
    {
        let key: String = name.to_owned();
        self.lookup(&key)
    }

    /// Whether the label is declared.
    pub fn contains(&self, name: &str) -> (found: bool)
        ensures
            found == self@.contains_key(name@),
    {
        self.get(name).is_some()
    }

    /// Binds the label to the address. The table stays well formed where
    /// the label was not declared before.
    pub fn declare(&mut self, name: String, address: usize)
        ensures
            final(self)@ == old(self)@.insert(name@, address),
            old(self).wf() && !old(self)@.contains_key(name@) ==> final(self).wf(),
    {
        let ghost fresh = name@;
        self.entries.push(LabelEntry { name, address });
        assert(self.entries@.drop_last() =~= old(self).entries@);
        proof {
            if old(self).wf() && !old(self)@.contains_key(fresh) {
                assert forall|i: int, j: int| 0 <= i < j < self.entries@.len() implies (
                #[trigger] self.entries@[i]).name@ != (#[trigger] self.entries@[j]).name@ by {
                    if j == self.entries@.len() - 1 {
                        lemma_bindings_hold_names(old(self).entries@, i);
                    } else {
                        assert(old(self).entries@[i].name@ != old(self).entries@[j].name@);
                    }
                }
            }
        }
    }
}

/// The opcode that a word names. The reserved no-op has no mnemonic.
pub open spec fn mnemonic_of(word: Seq<char>) -> Option<Opcode> {
    if word == seq!['M', 'O', 'V'] {
        Some(Opcode::Mov)
    } else if word == seq!['A', 'D', 'D'] {
        Some(Opcode::Add)
    } else if word == seq!['J', 'M', 'P'] {
        Some(Opcode::Jmp)
    } else if word == seq!['H', 'A', 'L', 'T'] {
        Some(Opcode::Halt)
    } else {
        None
    }
}

/// Looks a mnemonic up in the catalog.
pub fn mnemonic(word: &Vec<char>) -> (op: Option<Opcode>)
    ensures
        op == mnemonic_of(word@),
{
    if word.len() == 3 && word[0] == 'M' && word[1] == 'O' && word[2] == 'V' {
        assert(word@ =~= seq!['M', 'O', 'V']);
        Some(Opcode::Mov)
    } else if word.len() == 3 && word[0] == 'A' && word[1] == 'D' && word[2] == 'D' {
        assert(word@ =~= seq!['A', 'D', 'D']);
        Some(Opcode::Add)
    } else if word.len() == 3 && word[0] == 'J' && word[1] == 'M' && word[2] == 'P' {
        assert(word@ =~= seq!['J', 'M', 'P']);
        Some(Opcode::Jmp)
    } else if word.len() == 4 && word[0] == 'H' && word[1] == 'A' && word[2] == 'L' && word[3]
        == 'T' {
        assert(word@ =~= seq!['H', 'A', 'L', 'T']);
        Some(Opcode::Halt)
    } else {
        None
    }
}

/// The mnemonic that names an opcode in source text. The reserved no-op has
/// none.
pub fn mnemonic_text(op: Opcode) -> (name: Option<&'static str>)
    ensures
        match name {
            Some(text) => mnemonic_of(text@) == Some(op),
            None => op == Opcode::Nop,
        },
{
    proof {
        reveal_strlit("MOV");
        reveal_strlit("ADD");
        reveal_strlit("JMP");
        reveal_strlit("HALT");
    }
    match op {
        Opcode::Mov => {
            assert("MOV"@ =~= seq!['M', 'O', 'V']);
            Some("MOV")
        },
        Opcode::Add => {
            assert("ADD"@ =~= seq!['A', 'D', 'D']);
            Some("ADD")
        },
        Opcode::Jmp => {
            assert("JMP"@ =~= seq!['J', 'M', 'P']);
            Some("JMP")
        },
        Opcode::Halt => {
            assert("HALT"@ =~= seq!['H', 'A', 'L', 'T']);
            Some("HALT")
        },
        Opcode::Nop => None,
    }
}

/// The width that pass 1 counts for an instruction line: that of the opcode
/// its first word names, and 0 where that word is no mnemonic.
pub open spec fn width_of(line: Seq<char>) -> nat {
    let w = words(line);
    if w.len() == 0 {
        0
    } else {
        match mnemonic_of(w[0]) {
            Some(op) => op.spec_width(),
            None => 0,
        }
    }
}

/// The encoded width of an instruction line, judged by its mnemonic.
pub fn calculate_byte_size(instruction: &str) -> (width: usize)
    ensures
        width == width_of(instruction@),
{
    let line: Vec<char> = chars_of(instruction);
    line_width(&line)
}

fn line_width(line: &Vec<char>) -> (width: usize)
    ensures
        width == width_of(line@),
        width <= 3,
{
    let w: Vec<Vec<char>> = split_words(line);
    if w.len() == 0 {
        0
    } else {
        assert(texts(w@)[0] == w@[0]@);
        match mnemonic(&w[0]) {
            Some(op) => op.width(),
            None => 0,
        }
    }
}

/// The statements of a list of source lines: what each line says, for the
/// lines that say anything.
pub open spec fn statements_of(lines: Seq<Seq<char>>) -> Seq<Seq<char>>
    decreases lines.len(),
{
    if lines.len() == 0 {
        Seq::empty()
    } else {
        let before = statements_of(lines.drop_last());
        let said = cleaned(lines.last());
        if said.len() > 0 {
            before.push(said)
        } else {
            before
        }
    }
}

/// The statements of a source text: its lines without comments, surrounding
/// separators and blank lines.
pub open spec fn statements(source: Seq<char>) -> Seq<Seq<char>> {
    statements_of(source_lines(source))
}

/// A statement that ends in the label marker declares a label.
pub open spec fn declares_label(statement: Seq<char>) -> bool {
    statement.len() > 0 && statement.last() == LABEL_MARKER
}

/// The name that a label declaration declares.
pub open spec fn label_name(statement: Seq<char>) -> Seq<char> {
    without_markers(statement)
}

/// The instruction lines among the statements: those that declare no label.
pub open spec fn instruction_lines(statements: Seq<Seq<char>>) -> Seq<Seq<char>>
    decreases statements.len(),
{
    if statements.len() == 0 {
        Seq::empty()
    } else {
        let before = instruction_lines(statements.drop_last());
        if declares_label(statements.last()) {
            before
        } else {
            before.push(statements.last())
        }
    }
}

/// The sum of the widths of the instruction lines.
pub open spec fn total_width(lines: Seq<Seq<char>>) -> nat
    decreases lines.len(),
{
    if lines.len() == 0 {
        0
    } else {
        total_width(lines.drop_last()) + width_of(lines.last())
    }
}

/// The byte offset at which the statement with index `k` stands: the sum of
/// the widths of the instruction lines before it.
pub open spec fn offset_at(statements: Seq<Seq<char>>, k: int) -> nat {
    total_width(instruction_lines(statements.take(k)))
}

/// An offset as an address; an offset too large for the machine's word
/// becomes the largest address.
pub open spec fn address_of(offset: nat) -> usize {
    if offset > usize::MAX {
        usize::MAX
    } else {
        offset as usize
    }
}

/// The address that lies `width` bytes behind `position`; the largest
/// address where that is too large for the machine's word.
pub open spec fn advanced(position: usize, width: usize) -> usize {
    address_of((position + width) as nat)
}

/// Advances a position by the width of an instruction.
pub fn advance(position: usize, width: usize) -> (next: usize)
    ensures
        next == advanced(position, width),
{
    if width > usize::MAX - position {
        usize::MAX
    } else {
        position + width
    }
}

/// The labels that the statements declare, each bound to the address at
/// which its declaration stands.
pub open spec fn label_table(statements: Seq<Seq<char>>) -> Map<Seq<char>, usize>
    decreases statements.len(),
{
    if statements.len() == 0 {
        Map::empty()
    } else {
        let before = label_table(statements.drop_last());
        if declares_label(statements.last()) {
            before.insert(
                label_name(statements.last()),
                address_of(offset_at(statements, statements.len() - 1)),
            )
        } else {
            before
        }
    }
}

/// The name of the first label declaration that repeats an earlier one.
pub open spec fn first_duplicate(statements: Seq<Seq<char>>) -> Option<Seq<char>>
    decreases statements.len(),
{
    if statements.len() == 0 {
        None
    } else {
        match first_duplicate(statements.drop_last()) {
            Some(name) => Some(name),
            None => if declares_label(statements.last()) && label_table(
                statements.drop_last(),
            ).contains_key(label_name(statements.last())) {
                Some(label_name(statements.last()))
            } else {
                None
            },
        }
    }
}

/// What pass 1 makes of the statements: the label table, or the first
/// duplicate label.
pub open spec fn collected(statements: Seq<Seq<char>>) -> Result<Map<Seq<char>, usize>, Fault> {
    match first_duplicate(statements) {
        Some(name) => Err(Fault::DuplicateLabel(name)),
        None => Ok(label_table(statements)),
    }
}

/// The instruction that an instruction line denotes under the label table,
/// or what is wrong with the line.
pub open spec fn instruction_of(line: Seq<char>, labels: Map<Seq<char>, usize>) -> Result<
    Instruction,
    Fault,
> {
    let w = words(line);
    if w.len() == 0 {
        Err(Fault::UnknownInstruction(line))
    } else {
        match mnemonic_of(w[0]) {
            Some(Opcode::Mov) => if w.len() == 3 && register_of(w[1]) is Some && immediate_of(
                w[2],
            ) is Some {
                Ok(Instruction::Mov { reg: register_of(w[1])->0, imm: immediate_of(w[2])->0 })
            } else {
                Err(Fault::MalformedOperands(line))
            },
            Some(Opcode::Add) => if w.len() == 3 && register_of(w[1]) is Some && register_of(
                w[2],
            ) is Some {
                Ok(Instruction::Add { dst: register_of(w[1])->0, src: register_of(w[2])->0 })
            } else {
                Err(Fault::MalformedOperands(line))
            },
            Some(Opcode::Jmp) => if w.len() != 2 {
                Err(Fault::MalformedOperands(line))
            } else if !labels.contains_key(w[1]) {
                Err(Fault::UndefinedLabel(w[1]))
            } else if labels[w[1]] > MAX_JUMP_TARGET {
                Err(Fault::AddressOutOfRange(w[1]))
            } else {
                Ok(Instruction::Jmp { target: labels[w[1]] as u8 })
            },
            Some(Opcode::Halt) => if w.len() == 1 {
                Ok(Instruction::Halt)
            } else {
                Err(Fault::MalformedOperands(line))
            },
            _ => Err(Fault::UnknownInstruction(line)),
        }
    }
}

/// What pass 2 makes of the instruction lines: the program, or the fault of
/// the first line that has one.
pub open spec fn program_of(lines: Seq<Seq<char>>, labels: Map<Seq<char>, usize>) -> Result<
    Seq<Instruction>,
    Fault,
>
    decreases lines.len(),
{
    if lines.len() == 0 {
        Ok(Seq::empty())
    } else {
        match program_of(lines.drop_last(), labels) {
            Err(fault) => Err(fault),
            Ok(program) => match instruction_of(lines.last(), labels) {
                Err(fault) => Err(fault),
                Ok(instruction) => Ok(program.push(instruction)),
            },
        }
    }
}

/// What the assembler makes of statements: the bytes of the program and the
/// label table; or the first duplicate label; or, where no label is declared
/// twice, the fault of the first instruction line that has one.
pub open spec fn assembled_statements(statements: Seq<Seq<char>>) -> Result<
    (Seq<u8>, Map<Seq<char>, usize>),
    Fault,
> {
    match collected(statements) {
        Err(fault) => Err(fault),
        Ok(labels) => match program_of(instruction_lines(statements), labels) {
            Err(fault) => Err(fault),
            Ok(program) => Ok((encode_all(program), labels)),
        },
    }
}

/// What the assembler makes of a source text: what it makes of the
/// statements of the text.
pub open spec fn assembled(source: Seq<char>) -> Result<(Seq<u8>, Map<Seq<char>, usize>), Fault> {
    assembled_statements(statements(source))
}

/// Later statements do not change which duplicate comes first.
pub proof fn lemma_first_duplicate_stays(statements: Seq<Seq<char>>, k: int)
    requires
        0 <= k <= statements.len(),
        first_duplicate(statements.take(k)) is Some,
    ensures
        first_duplicate(statements) == first_duplicate(statements.take(k)),
    decreases statements.len() - k,
{
    if k == statements.len() {
        assert(statements.take(k) =~= statements);
    } else {
        assert(statements.take(k + 1).drop_last() =~= statements.take(k));
        lemma_first_duplicate_stays(statements, k + 1);
    }
}

/// Reads the statements of a source text.
pub fn read_statements(source: &str) -> (out: Vec<Vec<char>>)
    ensures
        texts(out@) == statements(source@),
{
    let src: Vec<char> = chars_of(source);
    let lines: Vec<Vec<char>> = split_lines(&src);
    let mut out: Vec<Vec<char>> = Vec::new();
    let mut i: usize = 0;
    assert(texts(out@) =~= statements_of(texts(lines@).take(0)));
    while i < lines.len()
        invariant
            i <= lines.len(),
            texts(out@) == statements_of(texts(lines@).take(i as int)),
        decreases lines.len() - i,
    {
        let said: Vec<char> = clean_line(&lines[i]);
        proof {
            assert(texts(lines@).take(i + 1).drop_last() =~= texts(lines@).take(i as int));
            assert(texts(lines@).take(i + 1).last() == lines@[i as int]@);
        }
        if said.len() > 0 {
            let ghost before = texts(out@);
            out.push(said);
            assert(texts(out@) =~= before.push(said@));
        }
        i = i + 1;
    }
    assert(texts(lines@).take(i as int) =~= texts(lines@));
    out
}

/// Pass 1 over statements: collects the labels with their addresses and
/// queues the instruction lines. Fails at the first label that is declared
/// twice.
pub fn collect_labels_of(stmts: &Vec<Vec<char>>) -> (r: Result<
    (LabelTable, Vec<String>),
    AssemblyError,
>)
    ensures
        match r {
            Ok((labels, lines)) => {
                &&& labels.wf()
                &&& collected(texts(stmts@)) == Ok::<Map<Seq<char>, usize>, Fault>(labels@)
                &&& string_views(lines@) == instruction_lines(texts(stmts@))
            },
            Err(e) => collected(texts(stmts@)) == Err::<Map<Seq<char>, usize>, Fault>(e@),
        },
{
    let ghost all = texts(stmts@);
    let mut labels: LabelTable = LabelTable::new();
    let mut lines: Vec<String> = Vec::new();
    let mut position: usize = 0;
    let mut k: usize = 0;
    assert(all.take(0) =~= Seq::<Seq<char>>::empty());
    assert(string_views(lines@) =~= Seq::<Seq<char>>::empty());
    while k < stmts.len()
        invariant
            k <= stmts.len(),
            all == texts(stmts@),
            labels.wf(),
            first_duplicate(all.take(k as int)) is None,
            labels@ == label_table(all.take(k as int)),
            string_views(lines@) == instruction_lines(all.take(k as int)),
            position == address_of(offset_at(all, k as int)),
        decreases stmts.len() - k,
    {
        let stmt: &Vec<char> = &stmts[k];
        proof {
            assert(all.take(k + 1).drop_last() =~= all.take(k as int));
            assert(all.take(k + 1).last() == stmt@);
            assert(all.take(k + 1).take(k as int) =~= all.take(k as int));
        }
        if stmt.len() > 0 && stmt[stmt.len() - 1] == LABEL_MARKER {
            let name: String = string_of(&strip_markers(stmt));
            if labels.lookup(&name).is_some() {
                proof {
                    lemma_first_duplicate_stays(all, k + 1);
                }
                return Err(AssemblyError::DuplicateLabel(name));
            }
            labels.declare(name, position);
        } else {
            let width: usize = line_width(stmt);
            let ghost before = string_views(lines@);
            lines.push(string_of(stmt));
            assert(string_views(lines@) =~= before.push(stmt@));
            assert(before.push(stmt@).drop_last() =~= before);
            position = advance(position, width);
        }
        k = k + 1;
    }
    assert(all.take(k as int) =~= all);
    Ok((labels, lines))
}

/// Pass 1: collects the labels of a source text with their addresses and
/// queues its instruction lines. Fails at the first label that is declared
/// twice.
pub fn collect_labels(source: &str) -> (r: Result<(LabelTable, Vec<String>), AssemblyError>)
    ensures
        match r {
            Ok((labels, lines)) => {
                &&& labels.wf()
                &&& collected(statements(source@)) == Ok::<Map<Seq<char>, usize>, Fault>(labels@)
                &&& string_views(lines@) == instruction_lines(statements(source@))
            },
            Err(e) => collected(statements(source@)) == Err::<Map<Seq<char>, usize>, Fault>(e@),
        },
{
    let stmts: Vec<Vec<char>> = read_statements(source);
    collect_labels_of(&stmts)
}

/// Validates one instruction line and resolves its operands.
pub fn parse_instruction(line: &str, labels: &LabelTable) -> (r: Result<Instruction, AssemblyError>)
    ensures
        match r {
            Ok(instruction) => instruction_of(line@, labels@) == Ok::<Instruction, Fault>(
                instruction,
            ) && instruction.wf(),
            Err(e) => instruction_of(line@, labels@) == Err::<Instruction, Fault>(e@),
        },
{
    let text: Vec<char> = chars_of(line);
    let w: Vec<Vec<char>> = split_words(&text);
    if w.len() == 0 {
        return Err(AssemblyError::UnknownInstruction(line.to_owned()));
    }
    proof {
        assert(forall|i: int| 0 <= i < w@.len() ==> (#[trigger] texts(w@)[i]) == w@[i]@);
    }
    match mnemonic(&w[0]) {
        Some(Opcode::Mov) => {
            if w.len() != 3 {
                return Err(AssemblyError::MalformedOperands(line.to_owned()));
            }
            match (parse_register(&w[1]), parse_value(&w[2])) {
                (Some(reg), Some(imm)) => Ok(Instruction::Mov { reg, imm }),
                _ => Err(AssemblyError::MalformedOperands(line.to_owned())),
            }
        },
        Some(Opcode::Add) => {
            if w.len() != 3 {
                return Err(AssemblyError::MalformedOperands(line.to_owned()));
            }
            match (parse_register(&w[1]), parse_register(&w[2])) {
                (Some(dst), Some(src)) => Ok(Instruction::Add { dst, src }),
                _ => Err(AssemblyError::MalformedOperands(line.to_owned())),
            }
        },
        Some(Opcode::Jmp) => {
            if w.len() != 2 {
                return Err(AssemblyError::MalformedOperands(line.to_owned()));
            }
            let name: String = string_of(&w[1]);
            match labels.lookup(&name) {
                None => Err(AssemblyError::UndefinedLabel(name)),
                Some(address) => if address > MAX_JUMP_TARGET {
                    Err(AssemblyError::AddressOutOfRange(name))
                } else {
                    Ok(Instruction::Jmp { target: address as u8 })
                },
            }
        },
        Some(Opcode::Halt) => {
            if w.len() == 1 {
                Ok(Instruction::Halt)
            } else {
                Err(AssemblyError::MalformedOperands(line.to_owned()))
            }
        },
        _ => Err(AssemblyError::UnknownInstruction(line.to_owned())),
    }
}

/// Pass 2: validates and encodes the instruction lines in order. Fails at
/// the first line that has a fault.
pub fn encode_instructions(lines: &Vec<String>, labels: &LabelTable) -> (r: Result<
    Vec<u8>,
    AssemblyError,
>)
    ensures
        match r {
            Ok(bytes) => program_of(string_views(lines@), labels@) is Ok && bytes@ == encode_all(
                program_of(string_views(lines@), labels@)->Ok_0,
            ),
            Err(e) => program_of(string_views(lines@), labels@) == Err::<Seq<Instruction>, Fault>(
                e@,
            ),
        },
{
    let ghost all = string_views(lines@);
    let mut bytes: Vec<u8> = Vec::new();
    let ghost mut program: Seq<Instruction> = Seq::empty();
    let mut k: usize = 0;
    assert(all.take(0) =~= Seq::<Seq<char>>::empty());
    while k < lines.len()
        invariant
            k <= lines.len(),
            all == string_views(lines@),
            program_of(all.take(k as int), labels@) == Ok::<Seq<Instruction>, Fault>(program),
            bytes@ == encode_all(program),
        decreases lines.len() - k,
    {
        proof {
            assert(all.take(k + 1).drop_last() =~= all.take(k as int));
            assert(all.take(k + 1).last() == lines@[k as int]@);
        }
        match parse_instruction(lines[k].as_str(), labels) {
            Err(e) => {
                proof {
                    lemma_first_fault_stays(all, labels@, k + 1);
                }
                return Err(e);
            },
            Ok(instruction) => {
                instruction.encode(&mut bytes);
                proof {
                    assert(program.push(instruction).drop_last() =~= program);
                    program = program.push(instruction);
                }
            },
        }
        k = k + 1;
    }
    assert(all.take(k as int) =~= all);
    Ok(bytes)
}

/// Later lines do not change which fault comes first.
pub proof fn lemma_first_fault_stays(
    lines: Seq<Seq<char>>,
    labels: Map<Seq<char>, usize>,
    k: int,
)
    requires
        0 <= k <= lines.len(),
        program_of(lines.take(k), labels) is Err,
    ensures
        program_of(lines, labels) == program_of(lines.take(k), labels),
    decreases lines.len() - k,
{
    if k == lines.len() {
        assert(lines.take(k) =~= lines);
    } else {
        assert(lines.take(k + 1).drop_last() =~= lines.take(k));
        lemma_first_fault_stays(lines, labels, k + 1);
    }
}

/// Assembles statements into bytecode and returns it with the label table.
pub fn assemble_statements(stmts: &Vec<Vec<char>>) -> (r: Result<
    (Vec<u8>, LabelTable),
    AssemblyError,
>)
    ensures
        match r {
            Ok((bytes, labels)) => labels.wf() && assembled_statements(texts(stmts@)) == Ok::<
                (Seq<u8>, Map<Seq<char>, usize>),
                Fault,
            >((bytes@, labels@)),
            Err(e) => assembled_statements(texts(stmts@)) == Err::<
                (Seq<u8>, Map<Seq<char>, usize>),
                Fault,
            >(e@),
        },
{
    match collect_labels_of(stmts) {
        Err(e) => Err(e),
        Ok((labels, lines)) => match encode_instructions(&lines, &labels) {
            Err(e) => Err(e),
            Ok(bytes) => Ok((bytes, labels)),
        },
    }
}

/// Assembles a source text into bytecode and returns it with the label
/// table.
pub fn assemble(source: &str) -> (r: Result<(Vec<u8>, LabelTable), AssemblyError>)
    ensures
        match r {
            Ok((bytes, labels)) => labels.wf() && assembled(source@) == Ok::<
                (Seq<u8>, Map<Seq<char>, usize>),
                Fault,
            >((bytes@, labels@)),
            Err(e) => assembled(source@) == Err::<(Seq<u8>, Map<Seq<char>, usize>), Fault>(e@),
        },
{
    let stmts: Vec<Vec<char>> = read_statements(source);
    assemble_statements(&stmts)
}

} // verus!
