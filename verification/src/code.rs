//! The compiled form of an expression: a flat instruction sequence for a
//! small stack machine. Argument tuples travel unevaluated with their call
//! or definition instruction and are evaluated at execution time, left to
//! right, before dispatch.

use vstd::prelude::*;

use crate::ast::{
    expr_view, exprs_view, ht, ht_list, ht_opt, ht_val, lemma_exprs_view, val_view, Expr, ExprM,
    Operator, Value, ValM,
};

verus! {

/// One instruction of the compiled form.
#[derive(Debug)]
pub enum Instruction {
    /// Push a constant value.
    Push(Value),
    /// Resolve a bare reference and push its value.
    Load(String),
    /// Call a name: `None` arguments read, `Some` arguments invoke.
    Call(String, Option<Vec<Expr>>),
    /// Store a definition: the name, the pattern (`None` for a bare read
    /// slot), and the body; pushes the unit value.
    Move(String, Option<Vec<Expr>>, Expr),
    /// Pop two operands (right on top) and push the operation's result.
    BinOp(Operator),
    /// Evaluate the elements and push them as a tuple.
    MkTuple(Vec<Expr>),
    /// Evaluate the elements and push them as a set aggregate.
    MkSet(Vec<Expr>),
}

/// The ghost mirror of an instruction.
pub enum InstrM {
    Push(ValM),
    Load(Seq<char>),
    Call(Seq<char>, Option<Seq<ExprM>>),
    Move(Seq<char>, Option<Seq<ExprM>>, ExprM),
    BinOp(Operator),
    MkTuple(Seq<ExprM>),
    MkSet(Seq<ExprM>),
}

/// The model of the optional argument tuple.
pub open spec fn params_view(p: Option<Vec<Expr>>) -> Option<Seq<ExprM>> {
    match p {
        None => None,
        Some(ls) => Some(exprs_view(ls@)),
    }
}

/// The model of one instruction.
pub open spec fn instr_view(i: Instruction) -> InstrM {
    match i {
        Instruction::Push(v) => InstrM::Push(val_view(v)),
        Instruction::Load(name) => InstrM::Load(name@),
        Instruction::Call(name, p) => InstrM::Call(name@, params_view(p)),
        Instruction::Move(name, p, body) => InstrM::Move(name@, params_view(p), expr_view(body)),
        Instruction::BinOp(op) => InstrM::BinOp(op),
        Instruction::MkTuple(ls) => InstrM::MkTuple(exprs_view(ls@)),
        Instruction::MkSet(ls) => InstrM::MkSet(exprs_view(ls@)),
    }
}

impl DeepView for Instruction {
    type V = InstrM;

    open spec fn deep_view(&self) -> InstrM {
        instr_view(*self)
    }
}

/// The model of an instruction sequence.
pub open spec fn code_view(c: Seq<Instruction>) -> Seq<InstrM>
    decreases c,
{
    if c.len() == 0 {
        Seq::empty()
    } else {
        seq![instr_view(c[0])] + code_view(c.drop_first())
    }
}

/// The elementwise characterization of `code_view`.
pub broadcast proof fn lemma_code_view(c: Seq<Instruction>)
    ensures
        (#[trigger] code_view(c)).len() == c.len(),
        forall|i: int| 0 <= i < c.len() ==> code_view(c)[i] == instr_view(c[i]),
    decreases c.len(),
{
    if c.len() > 0 {
        lemma_code_view(c.drop_first());
        assert forall|i: int| 0 <= i < c.len() implies code_view(c)[i] == instr_view(c[i]) by {
            if i > 0 {
                assert(c.drop_first()[i - 1] == c[i]);
            }
        }
    }
}

/// A compiled unit: an instruction sequence that leaves one value on the
/// machine's stack.
#[derive(Debug)]
pub struct CodeObject {
    pub code: Vec<Instruction>,
}

impl CodeObject {
    pub open spec fn view(&self) -> Seq<InstrM> {
        code_view(self.code@)
    }
}

/// A deep copy of one instruction, equal in the model.
pub fn clone_instruction(i: &Instruction) -> (r: Instruction)
    ensures
        instr_view(r) == instr_view(*i),
{
    match i {
        Instruction::Push(v) => Instruction::Push(crate::ast::clone_value(v)),
        Instruction::Load(name) => Instruction::Load(name.clone()),
        Instruction::Call(name, p) => Instruction::Call(name.clone(), clone_params(p)),
        Instruction::Move(name, p, body) => Instruction::Move(
            name.clone(),
            clone_params(p),
            crate::ast::clone_expr(body),
        ),
        Instruction::BinOp(op) => Instruction::BinOp(*op),
        Instruction::MkTuple(ls) => Instruction::MkTuple(crate::ast::clone_exprs(ls)),
        Instruction::MkSet(ls) => Instruction::MkSet(crate::ast::clone_exprs(ls)),
    }
}

/// A deep copy of an optional argument tuple, equal in the model.
pub fn clone_params(p: &Option<Vec<Expr>>) -> (r: Option<Vec<Expr>>)
    ensures
        params_view(r) == params_view(*p),
{
    match p {
        None => None,
        Some(ls) => Some(crate::ast::clone_exprs(ls)),
    }
}

impl Clone for Instruction {
    /// A deep copy; the copy has the same model as the original.
    fn clone(&self) -> (r: Self)
        ensures
            instr_view(r) == instr_view(*self),
    {
        clone_instruction(self)
    }
}

impl Clone for CodeObject {
    /// A deep copy; the copy has the same model as the original.
    fn clone(&self) -> (r: Self)
        ensures
            r@ == self@,
    {
        proof {
            lemma_code_view(self.code@);
        }
        let mut out: Vec<Instruction> = Vec::new();
        let n = self.code.len();
        let mut i: usize = 0;
        while i < n
            invariant
                0 <= i <= n,
                n == self.code@.len(),
                out@.len() == i,
                forall|j: int| 0 <= j < i ==> instr_view(out@[j]) == instr_view(self.code@[j]),
            decreases n - i,
        {
            let c = clone_instruction(&self.code[i]);
            out.push(c);
            i = i + 1;
        }
        let r = CodeObject { code: out };
        proof {
            lemma_code_view(self.code@);
            lemma_code_view(r.code@);
            assert(r@ =~= self@);
        }
        r
    }
}

/// The height of one instruction's expression payloads; used as part of the
/// termination measure of the machine.
pub open spec fn ht_instr(i: InstrM) -> nat {
    match i {
        InstrM::Push(v) => 1 + ht_val(v),
        InstrM::Load(_) => 1,
        InstrM::Call(_, p) => 1 + ht_opt(p),
        InstrM::Move(_, p, body) => 1 + ht_opt(p) + ht(body),
        InstrM::BinOp(_) => 1,
        InstrM::MkTuple(ls) => 1 + ht_list(ls),
        InstrM::MkSet(ls) => 1 + ht_list(ls),
    }
}

/// The height of an instruction sequence: above every instruction's.
pub open spec fn ht_code(c: Seq<InstrM>) -> nat
    decreases c,
{
    if c.len() == 0 {
        1
    } else {
        let h = ht_instr(c[0]);
        let rest = ht_code(c.drop_first());
        1 + if h >= rest {
            h
        } else {
            rest
        }
    }
}

/// Every instruction sits strictly below the sequence's height.
pub proof fn lemma_ht_code_elem(c: Seq<InstrM>, i: int)
    requires
        0 <= i < c.len(),
    ensures
        ht_instr(c[i]) < ht_code(c),
    decreases c.len(),
{
    if i > 0 {
        lemma_ht_code_elem(c.drop_first(), i - 1);
        assert(c.drop_first()[i - 1] == c[i]);
    }
}

} // verus!
