//! Element-wise activation programs and their translation to the flat form
//! that activation kernels read.
use vstd::prelude::*;
use core::marker::PhantomData;

verus! {

/// One of the three registers of an activation kernel.
#[derive(Copy, Clone, Debug, PartialEq, Eq, Structural)]
pub enum RegisterId {
    A,
    B,
    C,
}

/// A step of an activation program, as written by its author.
#[derive(Copy, Clone, Debug)]
pub enum Op<T> {
    Move(RegisterId, RegisterId),
    Load(RegisterId, T),
    Abs,
    Recip,
    Add,
    Sub,
    Mul,
    Min,
    Max,
    AddConst(T),
    SubConst(T),
    MulConst(T),
    MinConst(T),
    MaxConst(T),
    /// a <- a * b + constant
    FMA(T),
    IfPosTE,
    SwapBC,
    Floor,
    TwoPowOfInt,
}

/// An activation program: a sequence of steps.
#[derive(Clone, Debug)]
pub struct Program<T> {
    pub ops: Vec<Op<T>>,
}

/// An opcode as the kernel reads it. Steps that carry a constant lose it
/// here: the constant stands in the slot that follows.
#[derive(Copy, Clone, Debug, PartialEq, Eq, Structural)]
pub enum KerOp {
    Done,
    Move(RegisterId, RegisterId),
    Load(RegisterId),
    Abs,
    Recip,
    Add,
    Sub,
    Mul,
    Min,
    Max,
    AddConst,
    SubConst,
    MulConst,
    MinConst,
    MaxConst,
    FMA,
    IfPosTE,
    SwapBC,
    Floor,
    TwoPowOfInt,
}

/// What a slot of a kernel program holds: an opcode, or the position of a
/// constant in the program's constant table.
#[derive(Copy, Clone, Debug, PartialEq, Eq, Structural)]
pub enum Slot {
    Op(KerOp),
    Const(u16),
}

/// One compact slot of a kernel program over items of type `T`.
#[derive(Debug)]
pub struct OpOrConst<T> {
    pub slot: Slot,
    pub marker: PhantomData<T>,
}

/// The flat program that an activation kernel runs: slots, ended by
/// `Done`, and the constants that the `Const` slots point at.
#[derive(Debug)]
pub struct KerProgram<T> {
    pub ops: Vec<OpOrConst<T>>,
    pub consts: Vec<T>,
}

/// The opcode that stands for a step, and the constant it carries, if any.
pub open spec fn ker_op_of<T>(op: Op<T>) -> (KerOp, Option<T>) {
    match op {
        Op::Move(a, b) => (KerOp::Move(a, b), None),
        Op::Load(a, t) => (KerOp::Load(a), Some(t)),
        Op::Abs => (KerOp::Abs, None),
        Op::Recip => (KerOp::Recip, None),
        Op::Add => (KerOp::Add, None),
        Op::Sub => (KerOp::Sub, None),
        Op::Mul => (KerOp::Mul, None),
        Op::Min => (KerOp::Min, None),
        Op::Max => (KerOp::Max, None),
        Op::AddConst(t) => (KerOp::AddConst, Some(t)),
        Op::SubConst(t) => (KerOp::SubConst, Some(t)),
        Op::MulConst(t) => (KerOp::MulConst, Some(t)),
        Op::MinConst(t) => (KerOp::MinConst, Some(t)),
        Op::MaxConst(t) => (KerOp::MaxConst, Some(t)),
        Op::FMA(t) => (KerOp::FMA, Some(t)),
        Op::IfPosTE => (KerOp::IfPosTE, None),
        Op::SwapBC => (KerOp::SwapBC, None),
        Op::Floor => (KerOp::Floor, None),
        Op::TwoPowOfInt => (KerOp::TwoPowOfInt, None),
    }
}

/// The constants of a sequence of steps, in order.
pub open spec fn consts_of<T>(ops: Seq<Op<T>>) -> Seq<T>
    decreases ops.len(),
{
    if ops.len() == 0 {
        Seq::empty()
    } else {
        let last = ops.last();
        let init = consts_of(ops.drop_last());
        match ker_op_of(last).1 {
            Some(t) => init.push(t),
            None => init,
        }
    }
}

/// The slots of a sequence of steps, without the final `Done`: each step
/// gives its opcode, followed by a `Const` slot where it carries a constant.
pub open spec fn slots_of<T>(ops: Seq<Op<T>>) -> Seq<Slot>
    decreases ops.len(),
{
    if ops.len() == 0 {
        Seq::empty()
    } else {
        let last = ops.last();
        let init = slots_of(ops.drop_last());
        let (k, c) = ker_op_of(last);
        match c {
            Some(t) => init.push(Slot::Op(k)).push(
                Slot::Const(consts_of(ops.drop_last()).len() as u16),
            ),
            None => init.push(Slot::Op(k)),
        }
    }
}

proof fn lemma_consts_len_bound<T>(ops: Seq<Op<T>>)
    ensures
        consts_of(ops).len() <= ops.len(),
    decreases ops.len(),
{
    if ops.len() > 0 {
        lemma_consts_len_bound(ops.drop_last());
    }
}

impl<T: Copy> Program<T> {
    /// Translates the program into kernel slots: opcode by opcode, each
    /// constant moved to the constant table and referred to by the slot
    /// after its opcode, and a final `Done`.
    pub fn translate(&self) -> (r: KerProgram<T>)
        requires
            self.ops@.len() <= 65536,
        ensures
            r.ops@.map_values(|s: OpOrConst<T>| s.slot) == slots_of(self.ops@).push(
                Slot::Op(KerOp::Done),
            ),
            r.consts@ == consts_of(self.ops@),
    {
        let mut ops: Vec<OpOrConst<T>> = Vec::new();
        let mut consts: Vec<T> = Vec::new();
        let mut i: usize = 0;
        while i < self.ops.len()
            invariant
                i <= self.ops@.len() <= 65536,
                ops@.map_values(|s: OpOrConst<T>| s.slot) == slots_of(self.ops@.take(i as int)),
                consts@ == consts_of(self.ops@.take(i as int)),
            decreases self.ops@.len() - i,
        {
            proof {
                lemma_consts_len_bound(self.ops@.take(i as int));
                assert(self.ops@.take(i as int + 1).drop_last() =~= self.ops@.take(i as int));
            }
            let op = self.ops[i];
            let (k, c): (KerOp, Option<T>) = match op {
                Op::Move(a, b) => (KerOp::Move(a, b), None),
                Op::Load(a, t) => (KerOp::Load(a), Some(t)),
                Op::Abs => (KerOp::Abs, None),
                Op::Recip => (KerOp::Recip, None),
                Op::Add => (KerOp::Add, None),
                Op::Sub => (KerOp::Sub, None),
                Op::Mul => (KerOp::Mul, None),
                Op::Min => (KerOp::Min, None),
                Op::Max => (KerOp::Max, None),
                Op::AddConst(t) => (KerOp::AddConst, Some(t)),
                Op::SubConst(t) => (KerOp::SubConst, Some(t)),
                Op::MulConst(t) => (KerOp::MulConst, Some(t)),
                Op::MinConst(t) => (KerOp::MinConst, Some(t)),
                Op::MaxConst(t) => (KerOp::MaxConst, Some(t)),
                Op::FMA(t) => (KerOp::FMA, Some(t)),
                Op::IfPosTE => (KerOp::IfPosTE, None),
                Op::SwapBC => (KerOp::SwapBC, None),
                Op::Floor => (KerOp::Floor, None),
                Op::TwoPowOfInt => (KerOp::TwoPowOfInt, None),
            };
            ops.push(OpOrConst { slot: Slot::Op(k), marker: PhantomData });
            match c {
                Some(t) => {
                    let ix = consts.len() as u16;
                    ops.push(OpOrConst { slot: Slot::Const(ix), marker: PhantomData });
                    consts.push(t);
                },
                None => {},
            }
            i = i + 1;
            proof {
                assert(self.ops@.take(i as int).last() == op);
            }
        }
        ops.push(OpOrConst { slot: Slot::Op(KerOp::Done), marker: PhantomData });
        proof {
            assert(self.ops@.take(i as int) =~= self.ops@);
        }
        KerProgram { ops, consts }
    }
}

} // verus!
