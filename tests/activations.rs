use tract_linalg::activations::{KerOp, Op, OpOrConst, Program, RegisterId, Slot};

#[test]
fn size_of_op() {
    assert_eq!(std::mem::size_of::<OpOrConst<f32>>(), 4);
}

#[test]
fn translate_moves_constants_after_their_opcode() {
    let prog = Program {
        ops: vec![
            Op::Load(RegisterId::B, 2.5f32),
            Op::Move(RegisterId::A, RegisterId::C),
            Op::Abs,
            Op::MaxConst(0.0f32),
            Op::FMA(3.0f32),
            Op::IfPosTE,
        ],
    };
    let ker = prog.translate();
    let slots: Vec<Slot> = ker.ops.iter().map(|s| s.slot).collect();
    assert_eq!(
        slots,
        vec![
            Slot::Op(KerOp::Load(RegisterId::B)),
            Slot::Const(0),
            Slot::Op(KerOp::Move(RegisterId::A, RegisterId::C)),
            Slot::Op(KerOp::Abs),
            Slot::Op(KerOp::MaxConst),
            Slot::Const(1),
            Slot::Op(KerOp::FMA),
            Slot::Const(2),
            Slot::Op(KerOp::IfPosTE),
            Slot::Op(KerOp::Done),
        ]
    );
    assert_eq!(ker.consts, vec![2.5f32, 0.0, 3.0]);
}

#[test]
fn translate_empty_program_is_done() {
    let prog: Program<f32> = Program { ops: vec![] };
    let ker = prog.translate();
    assert_eq!(ker.ops.len(), 1);
    assert_eq!(ker.ops[0].slot, Slot::Op(KerOp::Done));
    assert!(ker.consts.is_empty());
}
