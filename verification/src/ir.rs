//! The lowering IR: the backend-facing form between the type checker and code
//! generation. Control flow is basic blocks ending in terminators; locals are
//! numbered slots; operands are temporaries (each the result of one
//! instruction) or immediate scalars. Blocks, grammars and variant tags are
//! referred to by their index in the program's tables.

use vstd::prelude::*;
use crate::ast::{BinOp, UnOp};
use crate::grammar::Grammar;
use crate::num::Num;

verus! {

#[derive(Clone, Copy, Debug)]
pub enum Operand {
    Tmp(u32),
    Spark(Num),
    Bool(bool),
    Unit,
}

#[derive(Debug)]
pub enum Instr {
    /// Reads a local slot into a fresh temporary.
    LoadLocal { dst: u32, local: u32 },
    /// Writes an operand into a local slot.
    StoreLocal { local: u32, src: Operand },
    /// A glyph (text) literal.
    Glyph { dst: u32, text: String },
    /// Renders any value to its glyph form.
    Render { dst: u32, val: Operand },
    /// Concatenates glyph operands left to right.
    Concat { dst: u32, parts: Vec<Operand> },
    Bin { dst: u32, op: BinOp, lhs: Operand, rhs: Operand },
    Un { dst: u32, op: UnOp, val: Operand },
    MakeRecord { dst: u32, fields: Vec<(String, Operand)> },
    MakeVariant { dst: u32, name: String, tag: u32, fields: Vec<(String, Operand)> },
    /// Reads a record or variant field by name.
    Field { dst: u32, recv: Operand, field: String },
    /// Reads a variant payload by position (for `enact` bindings).
    VariantField { dst: u32, recv: Operand, index: u32 },
    /// Reads a variant's interned tag (for `enact` dispatch).
    VariantTag { dst: u32, recv: Operand },
    /// The glyph rendering of a value's provenance.
    ProvenanceGlyph { dst: u32, recv: Operand },
    Call { dst: u32, callee: String, args: Vec<Operand> },
    /// Program output (`speak`).
    Speak { val: Operand },
    /// The inference primitive: a value generated under grammar `grammar`
    /// by the runtime engine serving `intent` (the oracle's summoned
    /// intent; the manifest binds it to a model), and its confidence. Never
    /// resolved while lowering.
    Decode { dst_val: u32, dst_conf: u32, grammar: u32, intent: String, inputs: Vec<Operand> },
    /// Wraps a value and its confidence into an inferred value, with the
    /// oracle and intent it came from.
    MakeInferred { dst: u32, val: Operand, conf: Operand, oracle: String, intent: String },
}

#[derive(Debug)]
pub enum Terminator {
    Jump(u32),
    Branch { cond: Operand, then_blk: u32, else_blk: u32 },
    /// Dispatch on an interned variant tag.
    Switch { tag: Operand, arms: Vec<(u32, u32)>, default: u32 },
    Return(Option<Operand>),
    /// Statically unreachable (an exhaustive `enact`'s default).
    Unreachable,
}

#[derive(Debug)]
pub struct Block {
    pub id: u32,
    pub instrs: Vec<Instr>,
    pub term: Terminator,
}

#[derive(Debug)]
pub struct Function {
    pub name: String,
    pub params: Vec<u32>,
    pub num_locals: u32,
    pub blocks: Vec<Block>,
    pub entry: u32,
}

#[derive(Debug)]
pub struct Program {
    /// User functions (definitions and familiars), in source order.
    pub functions: Vec<Function>,
    /// The implicit entry function holding top-level statements.
    pub main: Function,
    /// The grammars `Decode` instructions refer to.
    pub grammars: Vec<Grammar>,
    /// Interned variant names; a tag indexes this table.
    pub variant_names: Vec<String>,
}

/// An instruction's local slots, grammar and variant tag are in range.
pub open spec fn instr_ok(i: Instr, nl: nat, ng: nat, nv: nat) -> bool {
    match i {
        Instr::LoadLocal { local, .. } => local < nl,
        Instr::StoreLocal { local, .. } => local < nl,
        Instr::MakeVariant { tag, .. } => tag < nv,
        Instr::Decode { grammar, .. } => grammar < ng,
        _ => true,
    }
}

/// A terminator's targets are blocks of the function and its dispatch tags
/// are interned.
pub open spec fn term_ok(t: Terminator, nb: nat, nv: nat) -> bool {
    match t {
        Terminator::Jump(b) => b < nb,
        Terminator::Branch { then_blk, else_blk, .. } => then_blk < nb && else_blk < nb,
        Terminator::Switch { arms, default, .. } => default < nb && forall|k: int|
            0 <= k < arms@.len() ==> (#[trigger] arms@[k]).0 < nv && arms@[k].1 < nb,
        _ => true,
    }
}

/// Blocks are numbered by position from the entry block 0; every reference
/// a block makes (to a block, local, grammar or tag) is in range.
pub open spec fn function_wf(f: Function, ng: nat, nv: nat) -> bool {
    &&& f.blocks@.len() >= 1
    &&& f.entry == 0
    &&& forall|p: int| 0 <= p < f.params@.len() ==> #[trigger] f.params@[p] < f.num_locals
    &&& forall|b: int|
        #![trigger f.blocks@[b]]
        0 <= b < f.blocks@.len() ==> f.blocks@[b].id == b && term_ok(
            f.blocks@[b].term,
            f.blocks@.len(),
            nv,
        ) && forall|j: int|
            0 <= j < f.blocks@[b].instrs@.len() ==> instr_ok(
                #[trigger] f.blocks@[b].instrs@[j],
                f.num_locals as nat,
                ng,
                nv,
            )
}

/// Every function of the program is well formed against the program's
/// grammar and variant tables.
pub open spec fn program_wf(p: Program) -> bool {
    &&& function_wf(p.main, p.grammars@.len(), p.variant_names@.len())
    &&& forall|i: int|
        0 <= i < p.functions@.len() ==> function_wf(
            #[trigger] p.functions@[i],
            p.grammars@.len(),
            p.variant_names@.len(),
        )
}

impl Function {
    /// The block numbered `id`.
    pub fn block(&self, id: u32) -> (b: &Block)
        requires
            id < self.blocks@.len(),
        ensures
            *b == self.blocks@[id as int],
    {
        &self.blocks[id as usize]
    }
}

} // verus!
