//! The instructions that the compiler emits, and their assembly text.

use vstd::prelude::*;
use crate::decimal::{int_text, push_i64, push_u64, magnitude, nat_text};

verus! {

/// A machine register.
#[derive(Debug, Clone, Copy, PartialEq, Eq, Structural)]
pub enum Reg {
    RAX,
    RBP,
    RBX,
    RCX,
    RDX,
    RSI,
    R8,
    R9,
    R12,
    R15,
    RSP,
    RDI,
}

/// An operand: a register, an immediate, a memory cell at an offset below a
/// register (a negative offset lies above it), or a label.
#[derive(Debug, Clone)]
pub enum Val {
    Reg(Reg),
    Imm(i64),
    RegOffset(Reg, i64),
    Label(String),
}

/// What an operand is: `Val` with its label as a sequence of characters.
pub enum ValView {
    Reg(Reg),
    Imm(int),
    RegOffset(Reg, int),
    Label(Seq<char>),
}

impl View for Val {
    type V = ValView;

    open spec fn view(&self) -> ValView {
        match self {
            Val::Reg(r) => ValView::Reg(*r),
            Val::Imm(n) => ValView::Imm(*n as int),
            Val::RegOffset(r, n) => ValView::RegOffset(*r, *n as int),
            Val::Label(s) => ValView::Label(s@),
        }
    }
}

/// One instruction, or a label definition.
#[derive(Debug)]
pub enum Instr {
    IMov(Val, Val),
    IAdd(Val, Val),
    ISub(Val, Val),
    IMul(Val, Val),
    ICmp(Val, Val),
    ICMovE(Val, Val),
    ICMovL(Val, Val),
    ICMovG(Val, Val),
    ICMovGE(Val, Val),
    ICMovLE(Val, Val),
    IAnd(Val, Val),
    IShr(Val, Val),
    IShl(Val, Val),
    ISar(Val, Val),
    IJe(Val),
    IJne(Val),
    IJg(Val),
    IJge(Val),
    IJl(Val),
    IJo(Val),
    IJmp(Val),
    ICall(Val),
    IPush(Val),
    IPop(Val),
    ILabel(String),
    IRet(),
}

/// What an instruction is: `Instr` over operand views.
pub enum InstrView {
    IMov(ValView, ValView),
    IAdd(ValView, ValView),
    ISub(ValView, ValView),
    IMul(ValView, ValView),
    ICmp(ValView, ValView),
    ICMovE(ValView, ValView),
    ICMovL(ValView, ValView),
    ICMovG(ValView, ValView),
    ICMovGE(ValView, ValView),
    ICMovLE(ValView, ValView),
    IAnd(ValView, ValView),
    IShr(ValView, ValView),
    IShl(ValView, ValView),
    ISar(ValView, ValView),
    IJe(ValView),
    IJne(ValView),
    IJg(ValView),
    IJge(ValView),
    IJl(ValView),
    IJo(ValView),
    IJmp(ValView),
    ICall(ValView),
    IPush(ValView),
    IPop(ValView),
    ILabel(Seq<char>),
    IRet,
}

impl View for Instr {
    type V = InstrView;

    open spec fn view(&self) -> InstrView {
        match self {
            Instr::IMov(a, b) => InstrView::IMov(a@, b@),
            Instr::IAdd(a, b) => InstrView::IAdd(a@, b@),
            Instr::ISub(a, b) => InstrView::ISub(a@, b@),
            Instr::IMul(a, b) => InstrView::IMul(a@, b@),
            Instr::ICmp(a, b) => InstrView::ICmp(a@, b@),
            Instr::ICMovE(a, b) => InstrView::ICMovE(a@, b@),
            Instr::ICMovL(a, b) => InstrView::ICMovL(a@, b@),
            Instr::ICMovG(a, b) => InstrView::ICMovG(a@, b@),
            Instr::ICMovGE(a, b) => InstrView::ICMovGE(a@, b@),
            Instr::ICMovLE(a, b) => InstrView::ICMovLE(a@, b@),
            Instr::IAnd(a, b) => InstrView::IAnd(a@, b@),
            Instr::IShr(a, b) => InstrView::IShr(a@, b@),
            Instr::IShl(a, b) => InstrView::IShl(a@, b@),
            Instr::ISar(a, b) => InstrView::ISar(a@, b@),
            Instr::IJe(a) => InstrView::IJe(a@),
            Instr::IJne(a) => InstrView::IJne(a@),
            Instr::IJg(a) => InstrView::IJg(a@),
            Instr::IJge(a) => InstrView::IJge(a@),
            Instr::IJl(a) => InstrView::IJl(a@),
            Instr::IJo(a) => InstrView::IJo(a@),
            Instr::IJmp(a) => InstrView::IJmp(a@),
            Instr::ICall(a) => InstrView::ICall(a@),
            Instr::IPush(a) => InstrView::IPush(a@),
            Instr::IPop(a) => InstrView::IPop(a@),
            Instr::ILabel(s) => InstrView::ILabel(s@),
            Instr::IRet() => InstrView::IRet,
        }
    }
}

/// The views of a sequence of instructions, in order.
pub open spec fn code_view(v: Seq<Instr>) -> Seq<InstrView> {
    Seq::new(v.len(), |i: int| v[i]@)
}

/// The name of a register as the assembler reads it.
pub open spec fn reg_text(r: Reg) -> Seq<char> {
    match r {
        Reg::RAX => "RAX"@,
        Reg::RBP => "RBP"@,
        Reg::RBX => "RBX"@,
        Reg::RCX => "RCX"@,
        Reg::RDX => "RDX"@,
        Reg::RSI => "RSI"@,
        Reg::R8 => "R8"@,
        Reg::R9 => "R9"@,
        Reg::R12 => "R12"@,
        Reg::R15 => "R15"@,
        Reg::RSP => "RSP"@,
        Reg::RDI => "RDI"@,
    }
}

/// The assembly text of an operand. A memory cell is written with the
/// magnitude of its offset: `[R - n]` for an offset `n` that is not negative,
/// `[R + n]` for the offset `-n`.
pub open spec fn val_text(v: ValView) -> Seq<char> {
    match v {
        ValView::Reg(r) => reg_text(r),
        ValView::Imm(n) => int_text(n),
        ValView::RegOffset(r, n) => if n >= 0 {
            "["@ + reg_text(r) + " - "@ + nat_text(n as nat) + "]"@
        } else {
            "["@ + reg_text(r) + " + "@ + nat_text((-n) as nat) + "]"@
        },
        ValView::Label(s) => s,
    }
}

/// The assembly text of one instruction, without the line break.
pub open spec fn instr_text(i: InstrView) -> Seq<char> {
    match i {
        InstrView::IMov(a, b) => "  mov "@ + val_text(a) + ", "@ + val_text(b),
        InstrView::IAdd(a, b) => "  add "@ + val_text(a) + ", "@ + val_text(b),
        InstrView::ISub(a, b) => "  sub "@ + val_text(a) + ", "@ + val_text(b),
        InstrView::IMul(a, b) => "  imul "@ + val_text(a) + ", "@ + val_text(b),
        InstrView::ICmp(a, b) => "  cmp "@ + val_text(a) + ", "@ + val_text(b),
        InstrView::ICMovE(a, b) => "  cmove "@ + val_text(a) + ", "@ + val_text(b),
        InstrView::ICMovL(a, b) => "  cmovl "@ + val_text(a) + ", "@ + val_text(b),
        InstrView::ICMovG(a, b) => "  cmovg "@ + val_text(a) + ", "@ + val_text(b),
        InstrView::ICMovGE(a, b) => "  cmovge "@ + val_text(a) + ", "@ + val_text(b),
        InstrView::ICMovLE(a, b) => "  cmovle "@ + val_text(a) + ", "@ + val_text(b),
        InstrView::IAnd(a, b) => "  and "@ + val_text(a) + ", "@ + val_text(b),
        InstrView::IShr(a, b) => "  shr "@ + val_text(a) + ", "@ + val_text(b),
        InstrView::IShl(a, b) => "  shl "@ + val_text(a) + ", "@ + val_text(b),
        InstrView::ISar(a, b) => "  sar "@ + val_text(a) + ", "@ + val_text(b),
        InstrView::IJe(a) => "  je  near "@ + val_text(a),
        InstrView::IJne(a) => "  jne near "@ + val_text(a),
        InstrView::IJg(a) => "  jg  near "@ + val_text(a),
        InstrView::IJge(a) => "  jge near "@ + val_text(a),
        InstrView::IJl(a) => "  jl  near "@ + val_text(a),
        InstrView::IJo(a) => "  jo  near "@ + val_text(a),
        InstrView::IJmp(a) => "  jmp near "@ + val_text(a),
        InstrView::ICall(a) => "  call "@ + val_text(a),
        InstrView::IPush(a) => "  push "@ + val_text(a),
        InstrView::IPop(a) => "  pop "@ + val_text(a),
        InstrView::ILabel(s) => s + ":"@,
        InstrView::IRet => "  ret"@,
    }
}

/// The assembly text of a sequence of instructions, one per line.
pub open spec fn code_text(code: Seq<InstrView>) -> Seq<char>
    decreases code.len(),
{
    if code.len() == 0 {
        Seq::empty()
    } else {
        code_text(code.drop_last()) + instr_text(code.last()) + "\n"@
    }
}

impl Reg {
    /// The register's name.
    pub fn name(&self) -> (s: &'static str)
        ensures
            s@ == reg_text(*self),
    {
        match self {
            Reg::RAX => "RAX",
            Reg::RBP => "RBP",
            Reg::RBX => "RBX",
            Reg::RCX => "RCX",
            Reg::RDX => "RDX",
            Reg::RSI => "RSI",
            Reg::R8 => "R8",
            Reg::R9 => "R9",
            Reg::R12 => "R12",
            Reg::R15 => "R15",
            Reg::RSP => "RSP",
            Reg::RDI => "RDI",
        }
    }
}

impl Reg {
    /// The register's name, as a string of its own.
    pub fn to_string(&self) -> (s: String)
        ensures
            s@ == reg_text(*self),
    {
        self.name().to_owned()
    }
}

impl Val {
    /// Appends the operand's assembly text to `out`.
    pub fn write_to(&self, out: &mut String)
        ensures
            final(out)@ == old(out)@ + val_text(self@),
    {
        match self {
            Val::Reg(r) => {
                out.append(r.name());
            },
            Val::Imm(n) => {
                push_i64(out, *n);
            },
            Val::RegOffset(r, n) => {
                out.append("[");
                out.append(r.name());
                if *n >= 0 {
                    out.append(" - ");
                } else {
                    out.append(" + ");
                }
                push_u64(out, magnitude(*n));
                out.append("]");
                proof {
                    let m = if *n >= 0 { nat_text(*n as nat) } else { nat_text((-*n) as nat) };
                    let sep = if *n >= 0 { " - "@ } else { " + "@ };
                    assert(old(out)@ + "["@ + reg_text(*r) + sep + m + "]"@ =~= old(out)@ + ("["@
                        + reg_text(*r) + sep + m + "]"@));
                }
            },
            Val::Label(s) => {
                out.append(s.as_str());
            },
        }
    }

    /// The operand's assembly text.
    pub fn to_string(&self) -> (s: String)
        ensures
            s@ == val_text(self@),
    {
        let mut s = String::new();
        self.write_to(&mut s);
        assert(Seq::<char>::empty() + val_text(self@) =~= val_text(self@));
        s
    }
}

/// Appends a mnemonic and two operands, separated by a comma.
fn write_two(out: &mut String, mnemonic: &str, a: &Val, b: &Val)
    ensures
        final(out)@ == old(out)@ + (mnemonic@ + val_text(a@) + ", "@ + val_text(b@)),
{
    out.append(mnemonic);
    a.write_to(out);
    out.append(", ");
    b.write_to(out);
    assert(old(out)@ + mnemonic@ + val_text(a@) + ", "@ + val_text(b@) =~= old(out)@ + (mnemonic@
        + val_text(a@) + ", "@ + val_text(b@)));
}

/// Appends a mnemonic and one operand.
fn write_one(out: &mut String, mnemonic: &str, a: &Val)
    ensures
        final(out)@ == old(out)@ + (mnemonic@ + val_text(a@)),
{
    out.append(mnemonic);
    a.write_to(out);
    assert(old(out)@ + mnemonic@ + val_text(a@) =~= old(out)@ + (mnemonic@ + val_text(a@)));
}

impl Instr {
    /// Appends the instruction's assembly text to `out`.
    pub fn write_to(&self, out: &mut String)
        ensures
            final(out)@ == old(out)@ + instr_text(self@),
    {
        match self {
            Instr::IMov(a, b) => write_two(out, "  mov ", a, b),
            Instr::IAdd(a, b) => write_two(out, "  add ", a, b),
            Instr::ISub(a, b) => write_two(out, "  sub ", a, b),
            Instr::IMul(a, b) => write_two(out, "  imul ", a, b),
            Instr::ICmp(a, b) => write_two(out, "  cmp ", a, b),
            Instr::ICMovE(a, b) => write_two(out, "  cmove ", a, b),
            Instr::ICMovL(a, b) => write_two(out, "  cmovl ", a, b),
            Instr::ICMovG(a, b) => write_two(out, "  cmovg ", a, b),
            Instr::ICMovGE(a, b) => write_two(out, "  cmovge ", a, b),
            Instr::ICMovLE(a, b) => write_two(out, "  cmovle ", a, b),
            Instr::IAnd(a, b) => write_two(out, "  and ", a, b),
            Instr::IShr(a, b) => write_two(out, "  shr ", a, b),
            Instr::IShl(a, b) => write_two(out, "  shl ", a, b),
            Instr::ISar(a, b) => write_two(out, "  sar ", a, b),
            Instr::IJe(a) => write_one(out, "  je  near ", a),
            Instr::IJne(a) => write_one(out, "  jne near ", a),
            Instr::IJg(a) => write_one(out, "  jg  near ", a),
            Instr::IJge(a) => write_one(out, "  jge near ", a),
            Instr::IJl(a) => write_one(out, "  jl  near ", a),
            Instr::IJo(a) => write_one(out, "  jo  near ", a),
            Instr::IJmp(a) => write_one(out, "  jmp near ", a),
            Instr::ICall(a) => write_one(out, "  call ", a),
            Instr::IPush(a) => write_one(out, "  push ", a),
            Instr::IPop(a) => write_one(out, "  pop ", a),
            Instr::ILabel(s) => {
                out.append(s.as_str());
                out.append(":");
                assert(old(out)@ + s@ + ":"@ =~= old(out)@ + (s@ + ":"@));
            },
            Instr::IRet() => {
                out.append("  ret");
            },
        }
    }

    /// The instruction's assembly text.
    pub fn to_string(&self) -> (s: String)
        ensures
            s@ == instr_text(self@),
    {
        let mut s = String::new();
        self.write_to(&mut s);
        assert(Seq::<char>::empty() + instr_text(self@) =~= instr_text(self@));
        s
    }
}

/// The assembly text of `instrs`, each instruction on a line of its own.
pub fn instrs_to_string(instrs: &Vec<Instr>) -> (s: String)
    ensures
        s@ == code_text(code_view(instrs@)),
{
    let mut s = String::new();
    let mut i: usize = 0;
    assert(code_view(instrs@).take(0) =~= Seq::<InstrView>::empty());
    while i < instrs.len()
        invariant
            i <= instrs.len(),
            s@ == code_text(code_view(instrs@).take(i as int)),
        decreases instrs.len() - i,
    {
        instrs[i].write_to(&mut s);
        s.append("\n");
        proof {
            let all = code_view(instrs@);
            let next = all.take(i + 1);
            assert(next.drop_last() =~= all.take(i as int));
            assert(next.last() == instrs@[i as int]@);
        }
        i += 1;
    }
    assert(code_view(instrs@).take(i as int) =~= code_view(instrs@));
    s
}

} // verus!
