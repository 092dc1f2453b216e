//! The Zelealem virtual machine: a deterministic stack interpreter.
//!
//! Arithmetic wraps on overflow (two's complement, 64 bits).
use crate::bytecode::{opcode_of, OpCode};
use crate::bytes::{le_bytes, le_value, lemma_le_bytes_len, lemma_le_round_trip, pow256, read_u64_le};
use vstd::prelude::*;

verus! {

pub open spec fn msg_pc_out_of_bounds() -> Seq<char> {
    "PC out of bounds"@
}

pub open spec fn msg_halt_on_empty() -> Seq<char> {
    "Execution halted on empty stack"@
}

pub open spec fn msg_add_underflow() -> Seq<char> {
    "ADD requires two values on the stack"@
}

pub open spec fn msg_sub_underflow() -> Seq<char> {
    "SUB requires two values on the stack"@
}

pub open spec fn msg_invalid_opcode() -> Seq<char> {
    "Invalid opcode"@
}

/// The signed 64-bit integer whose two's-complement little-endian bytes
/// are `s` (eight of them).
pub open spec fn i64_from_le(s: Seq<u8>) -> i64 {
    let u = le_value(s);
    if u < 0x8000_0000_0000_0000 {
        u as i64
    } else {
        (u - 0x1_0000_0000_0000_0000) as i64
    }
}

/// The result of running `code` from instruction `pc` with `stack`.
pub open spec fn vm_result(code: Seq<u8>, pc: int, stack: Seq<i64>) -> Result<i64, Seq<char>>
    decreases code.len() - pc,
{
    if pc < 0 || pc >= code.len() {
        Err(msg_pc_out_of_bounds())
    } else {
        match opcode_of(code[pc]) {
            Some(OpCode::Halt) => if stack.len() == 0 {
                Err(msg_halt_on_empty())
            } else {
                Ok(stack.last())
            },
            Some(OpCode::Push) => if code.len() - (pc + 1) < 8 {
                Err(msg_pc_out_of_bounds())
            } else {
                vm_result(
                    code,
                    pc + 9,
                    stack.push(i64_from_le(code.subrange(pc + 1, pc + 9))),
                )
            },
            Some(OpCode::Add) => if stack.len() < 2 {
                Err(msg_add_underflow())
            } else {
                let a = stack[stack.len() - 2];
                let b = stack[stack.len() - 1];
                vm_result(code, pc + 1, stack.take(stack.len() - 2).push(a.wrapping_add(b)))
            },
            Some(OpCode::Sub) => if stack.len() < 2 {
                Err(msg_sub_underflow())
            } else {
                let a = stack[stack.len() - 2];
                let b = stack[stack.len() - 1];
                vm_result(code, pc + 1, stack.take(stack.len() - 2).push(a.wrapping_sub(b)))
            },
            None => Err(msg_invalid_opcode()),
        }
    }
}

/// A virtual machine loaded with a program.
pub struct ZVM {
    bytecode: Vec<u8>,
    stack: Vec<i64>,
    pc: usize,
}

impl ZVM {
    /// The loaded program.
    pub closed spec fn code(&self) -> Seq<u8> {
        self.bytecode@
    }

    /// The next instruction's position.
    pub closed spec fn counter(&self) -> int {
        self.pc as int
    }

    /// The operand stack, bottom first.
    pub closed spec fn operands(&self) -> Seq<i64> {
        self.stack@
    }

    /// A machine ready to run `bytecode` from its first byte with an empty
    /// stack.
    pub fn new(bytecode: Vec<u8>) -> (r: Self)
        ensures
            r.code() == bytecode@,
            r.counter() == 0,
            r.operands() == Seq::<i64>::empty(),
    {
        ZVM { bytecode, stack: Vec::new(), pc: 0 }
    }

    /// Runs until HALT or an error: fetch the byte at the counter, advance,
    /// decode, execute.
    pub fn run(&mut self) -> (r: Result<i64, String>)
        ensures
            final(self).code() == old(self).code(),
            match r {
                Ok(v) => vm_result(old(self).code(), old(self).counter(), old(self).operands())
                    == Ok::<i64, Seq<char>>(v),
                Err(m) => vm_result(old(self).code(), old(self).counter(), old(self).operands())
                    == Err::<i64, Seq<char>>(m@),
            },
    {
        let ghost code = self.bytecode@;
        let ghost outcome = vm_result(code, self.pc as int, self.stack@);
        loop
            invariant
                self.bytecode@ == code,
                code == old(self).code(),
                outcome == vm_result(old(self).code(), old(self).counter(), old(self).operands()),
                vm_result(code, self.pc as int, self.stack@) == outcome,
            decreases code.len() - self.pc,
        {
            let n = self.bytecode.len();
            if self.pc >= n {
                return Err("PC out of bounds".to_owned());
            }
            let byte = self.bytecode[self.pc];
            let ghost op_pc = self.pc as int;
            let ghost s0 = self.stack@;
            self.pc = self.pc + 1;
            match OpCode::from_byte(byte) {
                None => {
                    return Err("Invalid opcode".to_owned());
                },
                Some(OpCode::Halt) => {
                    return match self.stack.pop() {
                        Some(v) => Ok(v),
                        None => Err("Execution halted on empty stack".to_owned()),
                    };
                },
                Some(OpCode::Push) => {
                    if n - self.pc < 8 {
                        return Err("PC out of bounds".to_owned());
                    }
                    let u = read_u64_le(self.bytecode.as_slice(), self.pc);
                    let value: i64 = if u < 0x8000_0000_0000_0000 {
                        u as i64
                    } else {
                        ((u - 0x8000_0000_0000_0000) as i64) + i64::MIN
                    };
                    proof {
                        let u0 = le_value(code.subrange(op_pc + 1, op_pc + 9));
                        assert(u as nat == u0);
                        assert(value == i64_from_le(code.subrange(op_pc + 1, op_pc + 9)));
                    }
                    self.stack.push(value);
                    self.pc = self.pc + 8;
                },
                Some(OpCode::Add) => {
                    if self.stack.len() < 2 {
                        return Err("ADD requires two values on the stack".to_owned());
                    }
                    let b = self.stack.pop().unwrap();
                    let a = self.stack.pop().unwrap();
                    self.stack.push(a.wrapping_add(b));
                    proof {
                        assert(a == s0[s0.len() - 2] && b == s0[s0.len() - 1]);
                        assert(self.stack@ =~= s0.take(s0.len() - 2).push(a.wrapping_add(b)));
                    }
                },
                Some(OpCode::Sub) => {
                    if self.stack.len() < 2 {
                        return Err("SUB requires two values on the stack".to_owned());
                    }
                    let b = self.stack.pop().unwrap();
                    let a = self.stack.pop().unwrap();
                    self.stack.push(a.wrapping_sub(b));
                    proof {
                        assert(a == s0[s0.len() - 2] && b == s0[s0.len() - 1]);
                        assert(self.stack@ =~= s0.take(s0.len() - 2).push(a.wrapping_sub(b)));
                    }
                },
            }
        }
    }
}

/// An arithmetic expression over 64-bit integers.
pub enum Expr {
    Lit(i64),
    Add(Box<Expr>, Box<Expr>),
    Sub(Box<Expr>, Box<Expr>),
}

/// The value of an expression under wrapping 64-bit arithmetic.
pub open spec fn eval(e: Expr) -> i64
    decreases e,
{
    match e {
        Expr::Lit(v) => v,
        Expr::Add(a, b) => eval(*a).wrapping_add(eval(*b)),
        Expr::Sub(a, b) => eval(*a).wrapping_sub(eval(*b)),
    }
}

/// The two's-complement little-endian bytes of `v`.
pub open spec fn i64_le(v: i64) -> Seq<u8> {
    le_bytes((if v >= 0 { v as int } else { v + 0x1_0000_0000_0000_0000 }) as nat, 8)
}

/// Postfix code for an expression: operands first, then the operator.
pub open spec fn compile(e: Expr) -> Seq<u8>
    decreases e,
{
    match e {
        Expr::Lit(v) => seq![1u8] + i64_le(v),
        Expr::Add(a, b) => compile(*a) + compile(*b) + seq![2u8],
        Expr::Sub(a, b) => compile(*a) + compile(*b) + seq![3u8],
    }
}

pub proof fn lemma_i64_round_trip(v: i64)
    ensures
        i64_from_le(i64_le(v)) == v,
        i64_le(v).len() == 8,
{
    let n = (if v >= 0 { v as int } else { v + 0x1_0000_0000_0000_0000 }) as nat;
    lemma_le_round_trip(n, 8);
    lemma_le_bytes_len(n, 8);
    assert(pow256(8) == 0x1_0000_0000_0000_0000) by {
        reveal_with_fuel(pow256, 9);
    }
}

/// Running the code of `e`, found at `pc`, pushes the value of `e` and
/// moves past that code.
pub proof fn lemma_compiled_expr(e: Expr, code: Seq<u8>, pc: int, stack: Seq<i64>)
    requires
        0 <= pc,
        pc + compile(e).len() <= code.len(),
        code.subrange(pc, pc + compile(e).len()) == compile(e),
    ensures
        vm_result(code, pc, stack) == vm_result(code, pc + compile(e).len(), stack.push(eval(e))),
    decreases e,
{
    let c = compile(e);
    assert(code[pc] == c[0]);
    match e {
        Expr::Lit(v) => {
            lemma_i64_round_trip(v);
            assert forall|i: int| 0 <= i < 8 implies code.subrange(pc + 1, pc + 9)[i] == i64_le(
                v,
            )[i] by {
                assert(code.subrange(pc, pc + c.len())[1 + i] == c[1 + i]);
            }
            assert(code.subrange(pc + 1, pc + 9) =~= i64_le(v));
        },
        Expr::Add(a, b) | Expr::Sub(a, b) => {
            let ca = compile(*a);
            let cb = compile(*b);
            assert forall|i: int| 0 <= i < ca.len() implies code.subrange(pc, pc + ca.len())[i]
                == ca[i] by {
                assert(code.subrange(pc, pc + c.len())[i] == c[i]);
            }
            assert(code.subrange(pc, pc + ca.len()) =~= ca);
            lemma_compiled_expr(*a, code, pc, stack);
            assert forall|i: int| 0 <= i < cb.len() implies code.subrange(
                pc + ca.len(),
                pc + ca.len() + cb.len(),
            )[i] == cb[i] by {
                assert(code.subrange(pc, pc + c.len())[ca.len() + i] == c[ca.len() + i]);
            }
            assert(code.subrange(pc + ca.len(), pc + ca.len() + cb.len()) =~= cb);
            lemma_compiled_expr(*b, code, pc + ca.len(), stack.push(eval(*a)));
            let s2 = stack.push(eval(*a)).push(eval(*b));
            let at = pc + ca.len() + cb.len();
            assert(code[at] == c[(ca.len() + cb.len()) as int]);
            assert(s2.take(s2.len() - 2) =~= stack);
        },
    }
}

/// The code of an expression followed by HALT evaluates to the
/// expression's value.
pub proof fn lemma_vm_evaluates(e: Expr)
    ensures
        vm_result(compile(e) + seq![0u8], 0, Seq::empty()) == Ok::<i64, Seq<char>>(eval(e)),
{
    let code = compile(e) + seq![0u8];
    assert(code.subrange(0, compile(e).len() as int) =~= compile(e));
    lemma_compiled_expr(e, code, 0, Seq::empty());
    assert(code[compile(e).len() as int] == 0u8);
    assert(opcode_of(0u8) == Some(OpCode::Halt));
}

} // verus!
