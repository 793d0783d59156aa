//! The instruction catalog: opcodes, tag bytes, operand arity, encoded
//! widths, and the bit-exact encoding and decoding of single instructions
//! and of whole programs.

use vstd::prelude::*;

verus! {

/// Tag byte of `MOV reg, imm`.
pub const TAG_MOV: u8 = 0x01;

/// Tag byte of `ADD reg1, reg2`.
pub const TAG_ADD: u8 = 0x02;

/// Tag byte of `JMP address`.
pub const TAG_JMP: u8 = 0x03;

/// Tag byte of `HALT`.
pub const TAG_HALT: u8 = 0xFF;

/// Tag byte of the reserved no-op, which only advances the program counter.
pub const TAG_NOP: u8 = 0x90;

/// Number of general-purpose registers.
pub const REGISTER_COUNT: u8 = 4;

/// Size of the machine's flat memory in bytes.
pub const MEMORY_SIZE: usize = 256;

/// The operations of the machine.
#[derive(Clone, Copy, Debug, PartialEq, Eq, Structural)]
pub enum Opcode {
    Mov,
    Add,
    Jmp,
    Halt,
    Nop,
}

impl Opcode {
    /// The byte that introduces an instruction with this opcode.
    pub open spec fn spec_tag(self) -> u8 {
        match self {
            Opcode::Mov => TAG_MOV,
            Opcode::Add => TAG_ADD,
            Opcode::Jmp => TAG_JMP,
            Opcode::Halt => TAG_HALT,
            Opcode::Nop => TAG_NOP,
        }
    }

    /// Total encoded width in bytes, tag included.
    pub open spec fn spec_width(self) -> nat {
        match self {
            Opcode::Mov => 3,
            Opcode::Add => 3,
            Opcode::Jmp => 2,
            Opcode::Halt => 1,
            Opcode::Nop => 1,
        }
    }

    /// Number of operands that follow the mnemonic.
    pub open spec fn spec_arity(self) -> nat {
        match self {
            Opcode::Mov => 2,
            Opcode::Add => 2,
            Opcode::Jmp => 1,
            Opcode::Halt => 0,
            Opcode::Nop => 0,
        }
    }

    /// The opcode introduced by a tag byte, if the byte is a tag at all.
    pub open spec fn spec_from_tag(tag: u8) -> Option<Opcode> {
        if tag == TAG_MOV {
            Some(Opcode::Mov)
        } else if tag == TAG_ADD {
            Some(Opcode::Add)
        } else if tag == TAG_JMP {
            Some(Opcode::Jmp)
        } else if tag == TAG_HALT {
            Some(Opcode::Halt)
        } else if tag == TAG_NOP {
            Some(Opcode::Nop)
        } else {
            None
        }
    }

    pub fn tag(&self) -> (t: u8)
        ensures
            t == self.spec_tag(),
    {
        match self {
            Opcode::Mov => TAG_MOV,
            Opcode::Add => TAG_ADD,
            Opcode::Jmp => TAG_JMP,
            Opcode::Halt => TAG_HALT,
            Opcode::Nop => TAG_NOP,
        }
    }

    pub fn width(&self) -> (w: usize)
        ensures
            w == self.spec_width(),
    {
        match self {
            Opcode::Mov => 3,
            Opcode::Add => 3,
            Opcode::Jmp => 2,
            Opcode::Halt => 1,
            Opcode::Nop => 1,
        }
    }

    pub fn arity(&self) -> (n: usize)
        ensures
            n == self.spec_arity(),
    {
        match self {
            Opcode::Mov => 2,
            Opcode::Add => 2,
            Opcode::Jmp => 1,
            Opcode::Halt => 0,
            Opcode::Nop => 0,
        }
    }

    pub fn from_tag(tag: u8) -> (op: Option<Opcode>)
        ensures
            op == Opcode::spec_from_tag(tag),
    {
        if tag == TAG_MOV {
            Some(Opcode::Mov)
        } else if tag == TAG_ADD {
            Some(Opcode::Add)
        } else if tag == TAG_JMP {
            Some(Opcode::Jmp)
        } else if tag == TAG_HALT {
            Some(Opcode::Halt)
        } else if tag == TAG_NOP {
            Some(Opcode::Nop)
        } else {
            None
        }
    }
}

/// One instruction with its operands resolved to bytes.
#[derive(Clone, Copy, Debug, PartialEq, Eq, Structural)]
pub enum Instruction {
    /// Load the immediate into the register.
    Mov { reg: u8, imm: u8 },
    /// Add the second register to the first.
    Add { dst: u8, src: u8 },
    /// Continue at the absolute address.
    Jmp { target: u8 },
    /// Stop the machine.
    Halt,
    /// Do nothing.
    Nop,
}

impl Instruction {
    /// Every register operand names one of the machine's registers.
    pub open spec fn wf(self) -> bool {
        match self {
            Instruction::Mov { reg, imm } => reg < REGISTER_COUNT,
            Instruction::Add { dst, src } => dst < REGISTER_COUNT && src < REGISTER_COUNT,
            Instruction::Jmp { target } => true,
            Instruction::Halt => true,
            Instruction::Nop => true,
        }
    }

    pub open spec fn spec_opcode(self) -> Opcode {
        match self {
            Instruction::Mov { reg, imm } => Opcode::Mov,
            Instruction::Add { dst, src } => Opcode::Add,
            Instruction::Jmp { target } => Opcode::Jmp,
            Instruction::Halt => Opcode::Halt,
            Instruction::Nop => Opcode::Nop,
        }
    }

    /// The bytes of the instruction: its tag, then its operands in order.
    pub open spec fn encoding(self) -> Seq<u8> {
        match self {
            Instruction::Mov { reg, imm } => seq![TAG_MOV, reg, imm],
            Instruction::Add { dst, src } => seq![TAG_ADD, dst, src],
            Instruction::Jmp { target } => seq![TAG_JMP, target],
            Instruction::Halt => seq![TAG_HALT],
            Instruction::Nop => seq![TAG_NOP],
        }
    }

    pub fn is_well_formed(&self) -> (ok: bool)
        ensures
            ok == self.wf(),
    {
        match self {
            Instruction::Mov { reg, imm } => *reg < REGISTER_COUNT,
            Instruction::Add { dst, src } => *dst < REGISTER_COUNT && *src < REGISTER_COUNT,
            Instruction::Jmp { target } => true,
            Instruction::Halt => true,
            Instruction::Nop => true,
        }
    }

    pub fn opcode(&self) -> (op: Opcode)
        ensures
            op == self.spec_opcode(),
    {
        match self {
            Instruction::Mov { reg, imm } => Opcode::Mov,
            Instruction::Add { dst, src } => Opcode::Add,
            Instruction::Jmp { target } => Opcode::Jmp,
            Instruction::Halt => Opcode::Halt,
            Instruction::Nop => Opcode::Nop,
        }
    }

    /// Appends the instruction's bytes to `out`.
    pub fn encode(&self, out: &mut Vec<u8>)
        ensures
            final(out)@ == old(out)@ + self.encoding(),
    {
        match self {
            Instruction::Mov { reg, imm } => {
                out.push(TAG_MOV);
                out.push(*reg);
                out.push(*imm);
            },
            Instruction::Add { dst, src } => {
                out.push(TAG_ADD);
                out.push(*dst);
                out.push(*src);
            },
            Instruction::Jmp { target } => {
                out.push(TAG_JMP);
                out.push(*target);
            },
            Instruction::Halt => {
                out.push(TAG_HALT);
            },
            Instruction::Nop => {
                out.push(TAG_NOP);
            },
        }
        assert(out@ =~= old(out)@ + self.encoding());
    }
}

/// The instruction that starts at offset `at` of `bytes`. There is none where
/// `at` lies outside `bytes`, the byte there is no tag, an operand would lie
/// beyond the end, or a register operand names no register.
pub open spec fn decode_at(bytes: Seq<u8>, at: int) -> Option<Instruction> {
    if !(0 <= at < bytes.len()) {
        None
    } else {
        match Opcode::spec_from_tag(bytes[at]) {
            None => None,
            Some(op) => if at + op.spec_width() > bytes.len() {
                None
            } else {
                match op {
                    Opcode::Mov => if bytes[at + 1] < REGISTER_COUNT {
                        Some(Instruction::Mov { reg: bytes[at + 1], imm: bytes[at + 2] })
                    } else {
                        None
                    },
                    Opcode::Add => if bytes[at + 1] < REGISTER_COUNT && bytes[at + 2]
                        < REGISTER_COUNT {
                        Some(Instruction::Add { dst: bytes[at + 1], src: bytes[at + 2] })
                    } else {
                        None
                    },
                    Opcode::Jmp => Some(Instruction::Jmp { target: bytes[at + 1] }),
                    Opcode::Halt => Some(Instruction::Halt),
                    Opcode::Nop => Some(Instruction::Nop),
                }
            },
        }
    }
}

/// Decodes the instruction that starts at offset `at`.
pub fn decode(bytes: &Vec<u8>, at: usize) -> (r: Option<Instruction>)
    ensures
        r == decode_at(bytes@, at as int),
        r matches Some(i) ==> i.wf() && at + i.spec_opcode().spec_width() <= bytes@.len(),
{
    if at >= bytes.len() {
        return None;
    }
    let tag: u8 = bytes[at];
    match Opcode::from_tag(tag) {
        None => None,
        Some(op) => {
            if op.width() > bytes.len() - at {
                return None;
            }
            match op {
                Opcode::Mov => {
                    let reg: u8 = bytes[at + 1];
                    let imm: u8 = bytes[at + 2];
                    if reg < REGISTER_COUNT {
                        Some(Instruction::Mov { reg, imm })
                    } else {
                        None
                    }
                },
                Opcode::Add => {
                    let dst: u8 = bytes[at + 1];
                    let src: u8 = bytes[at + 2];
                    if dst < REGISTER_COUNT && src < REGISTER_COUNT {
                        Some(Instruction::Add { dst, src })
                    } else {
                        None
                    }
                },
                Opcode::Jmp => Some(Instruction::Jmp { target: bytes[at + 1] }),
                Opcode::Halt => Some(Instruction::Halt),
                Opcode::Nop => Some(Instruction::Nop),
            }
        },
    }
}

/// The bytes of a program: the encodings of its instructions, in order.
pub open spec fn encode_all(program: Seq<Instruction>) -> Seq<u8>
    decreases program.len(),
{
    if program.len() == 0 {
        Seq::empty()
    } else {
        encode_all(program.drop_last()) + program.last().encoding()
    }
}

/// The instructions that `bytes` holds from offset `at` to its end, or `None`
/// where some instruction on the way does not decode.
pub open spec fn decode_from(bytes: Seq<u8>, at: int) -> Option<Seq<Instruction>>
    decreases bytes.len() - at,
{
    if at >= bytes.len() || at < 0 {
        if at == bytes.len() {
            Some(Seq::empty())
        } else {
            None
        }
    } else {
        match decode_at(bytes, at) {
            None => None,
            Some(first) => match decode_from(bytes, at + first.spec_opcode().spec_width()) {
                None => None,
                Some(rest) => Some(seq![first] + rest),
            },
        }
    }
}

/// The instructions that `bytes` holds, or `None` where they are not a whole
/// number of well-formed instructions.
pub open spec fn decode_all(bytes: Seq<u8>) -> Option<Seq<Instruction>> {
    decode_from(bytes, 0)
}

/// All instructions of the program are well formed.
pub open spec fn all_wf(program: Seq<Instruction>) -> bool {
    forall|i: int| 0 <= i < program.len() ==> (#[trigger] program[i]).wf()
}

/// Encodes a whole program.
pub fn encode_program(program: &Vec<Instruction>) -> (bytes: Vec<u8>)
    ensures
        bytes@ == encode_all(program@),
{
    let mut bytes: Vec<u8> = Vec::new();
    let mut k: usize = 0;
    while k < program.len()
        invariant
            k <= program.len(),
            bytes@ == encode_all(program@.take(k as int)),
        decreases program.len() - k,
    {
        program[k].encode(&mut bytes);
        proof {
            assert(program@.take(k + 1).drop_last() =~= program@.take(k as int));
        }
        k = k + 1;
    }
    proof {
        assert(program@.take(k as int) =~= program@);
    }
    bytes
}

/// Decodes a whole program; `None` where the bytes are not a whole number of
/// well-formed instructions.
pub fn decode_program(bytes: &Vec<u8>) -> (r: Option<Vec<Instruction>>)
    ensures
        r matches Some(p) ==> decode_all(bytes@) == Some(p@) && all_wf(p@),
        r is None ==> decode_all(bytes@) is None,
{
    let mut out: Vec<Instruction> = Vec::new();
    let mut at: usize = 0;
    while at < bytes.len()
        invariant
            at <= bytes.len(),
            all_wf(out@),
            decode_all(bytes@) == match decode_from(bytes@, at as int) {
                None => None::<Seq<Instruction>>,
                Some(rest) => Some(out@ + rest),
            },
        decreases bytes.len() - at,
    {
        match decode(bytes, at) {
            None => {
                return None;
            },
            Some(i) => {
                proof {
                    let next = at + i.spec_opcode().spec_width();
                    match decode_from(bytes@, next) {
                        None => {},
                        Some(rest) => {
                            assert(out@ + (seq![i] + rest) =~= out@.push(i) + rest);
                        },
                    }
                }
                out.push(i);
                at = at + i.opcode().width();
            },
        }
    }
    proof {
        assert(out@ + Seq::<Instruction>::empty() =~= out@);
    }
    Some(out)
}

/// An instruction's encoding is as wide as the catalog says, and starts with
/// its opcode's tag.
pub proof fn lemma_encoding_width(i: Instruction)
    ensures
        i.encoding().len() == i.spec_opcode().spec_width(),
        i.encoding()[0] == i.spec_opcode().spec_tag(),
        Opcode::spec_from_tag(i.spec_opcode().spec_tag()) == Some(i.spec_opcode()),
{
}

/// Decoding the encoding of a well-formed instruction gives the instruction
/// back, wherever the encoding stands among other bytes.
pub proof fn lemma_decode_encoded(before: Seq<u8>, i: Instruction, after: Seq<u8>)
    requires
        i.wf(),
    ensures
        decode_at(before + i.encoding() + after, before.len() as int) == Some(i),
{
    let bytes = before + i.encoding() + after;
    let at = before.len() as int;
    lemma_encoding_width(i);
    assert(bytes[at] == i.encoding()[0]);
    match i {
        Instruction::Mov { reg, imm } => {
            assert(bytes[at + 1] == i.encoding()[1]);
            assert(bytes[at + 2] == i.encoding()[2]);
        },
        Instruction::Add { dst, src } => {
            assert(bytes[at + 1] == i.encoding()[1]);
            assert(bytes[at + 2] == i.encoding()[2]);
        },
        Instruction::Jmp { target } => {
            assert(bytes[at + 1] == i.encoding()[1]);
        },
        Instruction::Halt => {},
        Instruction::Nop => {},
    }
}

/// The encoding of a program starts with that of its first instruction.
pub proof fn lemma_encode_all_front(program: Seq<Instruction>)
    requires
        program.len() > 0,
    ensures
        encode_all(program) == program[0].encoding() + encode_all(program.skip(1)),
    decreases program.len(),
{
    if program.len() == 1 {
        assert(program.drop_last() =~= Seq::<Instruction>::empty());
        assert(program.skip(1) =~= Seq::<Instruction>::empty());
        assert(encode_all(program) =~= program[0].encoding() + encode_all(program.skip(1)));
    } else {
        lemma_encode_all_front(program.drop_last());
        assert(program.drop_last().skip(1) =~= program.skip(1).drop_last());
        assert(program.skip(1).last() == program.last());
        assert(program.drop_last()[0] == program[0]);
        assert(encode_all(program) =~= program[0].encoding() + encode_all(program.skip(1)));
    }
}

/// A well-formed program that was encoded and stands behind any bytes decodes,
/// from where it starts, to itself.
pub proof fn lemma_decode_from_encoded(before: Seq<u8>, program: Seq<Instruction>)
    requires
        all_wf(program),
    ensures
        decode_from(before + encode_all(program), before.len() as int) == Some(program),
    decreases program.len(),
{
    let bytes = before + encode_all(program);
    let at = before.len() as int;
    if program.len() == 0 {
        assert(bytes.len() == at);
    } else {
        let first = program[0];
        let rest = program.skip(1);
        lemma_encode_all_front(program);
        lemma_encoding_width(first);
        assert(first.wf());
        assert(bytes =~= before + first.encoding() + encode_all(rest));
        lemma_decode_encoded(before, first, encode_all(rest));
        assert(all_wf(rest)) by {
            assert forall|i: int| 0 <= i < rest.len() implies (#[trigger] rest[i]).wf() by {
                assert(rest[i] == program[i + 1]);
            }
        }
        lemma_decode_from_encoded(before + first.encoding(), rest);
        assert((before + first.encoding()).len() == at + first.spec_opcode().spec_width());
        assert(seq![first] + rest =~= program);
    }
}

/// Round trip: a well-formed program, encoded and then decoded, is the same
/// program again, instruction for instruction and operand for operand.
pub proof fn lemma_round_trip(program: Seq<Instruction>)
    requires
        all_wf(program),
    ensures
        decode_all(encode_all(program)) == Some(program),
{
    lemma_decode_from_encoded(Seq::empty(), program);
    assert(Seq::<u8>::empty() + encode_all(program) =~= encode_all(program));
}

/// What decodes encodes back: bytes that decode from `at` on to a program
/// are, from `at` on, that program's encoding.
pub proof fn lemma_encode_decoded_from(bytes: Seq<u8>, at: int)
    requires
        0 <= at <= bytes.len(),
        decode_from(bytes, at) is Some,
    ensures
        encode_all(decode_from(bytes, at)->0) == bytes.skip(at),
        all_wf(decode_from(bytes, at)->0),
    decreases bytes.len() - at,
{
    let program = decode_from(bytes, at)->0;
    if at == bytes.len() {
        assert(bytes.skip(at) =~= Seq::<u8>::empty());
    } else {
        let first = decode_at(bytes, at)->0;
        let next = at + first.spec_opcode().spec_width();
        lemma_encode_decoded_from(bytes, next);
        let rest = decode_from(bytes, next)->0;
        assert(program == seq![first] + rest);
        lemma_encode_all_front(program);
        assert(program.skip(1) =~= rest);
        assert(program[0] == first);
        assert(first.encoding() =~= bytes.subrange(at, next));
        assert(bytes.skip(at) =~= bytes.subrange(at, next) + bytes.skip(next));
        assert forall|i: int| 0 <= i < program.len() implies (#[trigger] program[i]).wf() by {
            if i > 0 {
                assert(program[i] == rest[i - 1]);
            }
        }
    }
}

/// Round trip from the bytes: a byte sequence that decodes to a program is
/// the encoding of that program, so decoding loses nothing.
pub proof fn lemma_decoded_encodes_back(bytes: Seq<u8>)
    requires
        decode_all(bytes) is Some,
    ensures
        encode_all(decode_all(bytes)->0) == bytes,
        all_wf(decode_all(bytes)->0),
{
    lemma_encode_decoded_from(bytes, 0);
    assert(bytes.skip(0) =~= bytes);
}

} // verus!
