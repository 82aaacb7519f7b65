use tract_linalg::fused::{
    BinOp, BufferLayout, FusedKerSpec, FusedSpec, Operand, OutputStore, PanelSource, ScratchError,
    StoreView, TileView, VecPtr,
};
use std::cell::RefCell;
use tract_linalg::fused::PanelRef;
use tract_linalg::scratch::{check_kernel, MatMatMulKer, PanelProvider, ScratchSpaceImpl};

/// Packed operands already in memory: panel `i` is found by its index; a
/// source that asked for a buffer gets the index written there. Every call
/// is logged as (packs into a buffer, index).
#[derive(Default)]
struct Panels {
    calls: RefCell<Vec<(bool, usize)>>,
}

impl PanelProvider for Panels {
    fn panel_bytes(&self, source: &PanelSource, index: usize, buffer: Option<usize>, blob: &mut [u8]) -> PanelRef {
        self.calls.borrow_mut().push((source.scratch_layout.is_some(), index));
        if let Some(off) = buffer {
            blob[off] = index as u8;
        }
        PanelRef { panel: index, buffer }
    }
}

/// A plain kernel for tests: works on `i64`, reads panels straight from
/// row-major `a` (m x k) and `b` (k x n).
struct RefKernel {
    a: Vec<i64>,
    b: Vec<i64>,
    m: usize,
    k: usize,
    n: usize,
    mr: usize,
    nr: usize,
    status: isize,
}

fn read_vec(specs: &Vec<FusedSpec<i64>>, scratch: &Vec<i64>, p: VecPtr, i: usize) -> i64 {
    match p.operand {
        Operand::Scratch => scratch[p.offset + i],
        Operand::Chain { spec, part } => match &specs[spec] {
            FusedSpec::BinPerRow(v, _) | FusedSpec::BinPerCol(v, _) => v[p.offset + i],
            FusedSpec::AddRowColProducts(r, c) => {
                if part == 0 {
                    r[p.offset + i]
                } else {
                    c[p.offset + i]
                }
            }
            _ => panic!("not a vector"),
        },
        Operand::Output => panic!("not a vector"),
    }
}

fn apply(op: BinOp, acc: i64, x: i64) -> i64 {
    match op {
        BinOp::Min => acc.min(x),
        BinOp::Max => acc.max(x),
        BinOp::Mul => acc * x,
        BinOp::Add => acc + x,
        BinOp::Sub => acc - x,
        BinOp::SubF => x - acc,
    }
}

impl MatMatMulKer<i64> for RefKernel {
    fn kernel(
        &self,
        program: &Vec<FusedKerSpec<i64>>,
        specs: &Vec<FusedSpec<i64>>,
        scratch: &mut Vec<i64>,
        c: &mut Vec<i64>,
    ) -> isize {
        let (mr, nr) = (self.mr, self.nr);
        let mut acc = vec![0i64; mr * nr];
        for op in program.iter() {
            match *op {
                FusedKerSpec::Done => break,
                FusedKerSpec::Clear => acc.iter_mut().for_each(|x| *x = 0),
                FusedKerSpec::AddMatMul { k, pa, pb } => {
                    for r in 0..mr {
                        for col in 0..nr {
                            let row = pa.panel * mr + r;
                            let column = pb.panel * nr + col;
                            if row < self.m && column < self.n {
                                for t in 0..k {
                                    acc[r + col * mr] += self.a[row * self.k + t] * self.b[t * self.n + column];
                                }
                            }
                        }
                    }
                }
                FusedKerSpec::Scalar(o, x) => acc.iter_mut().for_each(|v| *v = apply(o, *v, x)),
                FusedKerSpec::PerRow(o, p) => {
                    for r in 0..mr {
                        for col in 0..nr {
                            let x = read_vec(specs, scratch, p, r);
                            acc[r + col * mr] = apply(o, acc[r + col * mr], x);
                        }
                    }
                }
                FusedKerSpec::PerCol(o, p) => {
                    for r in 0..mr {
                        for col in 0..nr {
                            let x = read_vec(specs, scratch, p, col);
                            acc[r + col * mr] = apply(o, acc[r + col * mr], x);
                        }
                    }
                }
                FusedKerSpec::Store(TileView { at, row_stride, col_stride }) => {
                    for r in 0..mr {
                        for col in 0..nr {
                            let idx = at.offset + r * row_stride + col * col_stride;
                            match at.operand {
                                Operand::Output => c[idx] = acc[r + col * mr],
                                Operand::Scratch => scratch[idx] = acc[r + col * mr],
                                _ => return 2,
                            }
                        }
                    }
                }
                _ => return 2,
            }
        }
        self.status
    }
}

fn lcg(seed: &mut u64) -> i64 {
    *seed = seed.wrapping_mul(6364136223846793005).wrapping_add(1442695040888963407);
    ((*seed >> 33) % 19) as i64 - 9
}

fn matmul_chain(k: usize, n: usize) -> Vec<FusedSpec<i64>> {
    vec![
        FusedSpec::AddMatMul {
            a: PanelSource { k, scratch_layout: None },
            b: PanelSource { k, scratch_layout: None },
        },
        FusedSpec::Store(StoreView { row_stride: n, col_stride: 1 }),
    ]
}

fn run_all(sp: &mut ScratchSpaceImpl<i64>, ker: &RefKernel, specs: &Vec<FusedSpec<i64>>, c: &mut Vec<i64>) {
    let downs = (ker.m + ker.mr - 1) / ker.mr;
    let rights = (ker.n + ker.nr - 1) / ker.nr;
    for down in 0..downs {
        for right in 0..rights {
            sp.run(ker, &Panels::default(), specs, c, down, right).unwrap();
        }
    }
}

#[test]
fn engine_matches_naive_matmul() {
    let mut seed = 42u64;
    for &(mr, nr) in &[(4usize, 4usize), (8, 4), (8, 6), (1, 1)] {
        for &m in &[1usize, 3, 4, 5, 9, 17] {
            for &k in &[1usize, 2, 7] {
                for &n in &[1usize, 4, 6, 11] {
                    let a: Vec<i64> = (0..m * k).map(|_| lcg(&mut seed)).collect();
                    let b: Vec<i64> = (0..k * n).map(|_| lcg(&mut seed)).collect();
                    let ker = RefKernel { a: a.clone(), b: b.clone(), m, k, n, mr, nr, status: 0 };
                    let specs = matmul_chain(k, n);
                    let mut sp = ScratchSpaceImpl::<i64>::new();
                    sp.prepare(mr, nr, m, n, &specs).unwrap();
                    let mut c = vec![0i64; m * n];
                    run_all(&mut sp, &ker, &specs, &mut c);
                    for i in 0..m {
                        for j in 0..n {
                            let want: i64 = (0..k).map(|t| a[i * k + t] * b[t * n + j]).sum();
                            assert_eq!(c[i * n + j], want, "m={m} k={k} n={n} mr={mr} nr={nr}");
                        }
                    }
                }
            }
        }
    }
}

#[test]
fn border_tiles_touch_only_the_live_region() {
    let (m, k, n, mr, nr) = (5usize, 3usize, 3usize, 4usize, 4usize);
    let a: Vec<i64> = (0..(m * k) as i64).collect();
    let b: Vec<i64> = (0..(k * n) as i64).map(|x| x - 4).collect();
    let ker = RefKernel { a: a.clone(), b: b.clone(), m, k, n, mr, nr, status: 0 };
    // rows of the output are 5 items apart: two padding items per row
    let rs = 5usize;
    let specs = vec![
        FusedSpec::AddMatMul {
            a: PanelSource { k, scratch_layout: None },
            b: PanelSource { k, scratch_layout: None },
        },
        FusedSpec::Store(StoreView { row_stride: rs, col_stride: 1 }),
    ];
    let mut sp = ScratchSpaceImpl::<i64>::new();
    sp.prepare(mr, nr, m, n, &specs).unwrap();
    let mut c = vec![777i64; m * rs];
    run_all(&mut sp, &ker, &specs, &mut c);
    for i in 0..m {
        for j in 0..rs {
            if j < n {
                let want: i64 = (0..k).map(|t| a[i * k + t] * b[t * n + j]).sum();
                assert_eq!(c[i * rs + j], want);
            } else {
                assert_eq!(c[i * rs + j], 777);
            }
        }
    }
}

#[test]
fn postprocess_copies_live_part_only() {
    let (m, n, mr, nr) = (5usize, 3usize, 4usize, 4usize);
    let specs = vec![FusedSpec::Store(StoreView { row_stride: n, col_stride: 1 })];
    let mut sp = ScratchSpaceImpl::<i64>::new();
    sp.prepare(mr, nr, m, n, &specs).unwrap();
    sp.for_border_tile(&Panels::default(), &specs, 1, 0, 1, 3);
    for x in 0..16 {
        sp.tiles[x] = 100 + x as i64;
    }
    let mut c = vec![-1i64; m * n];
    sp.postprocess_tile(&specs, &mut c, 1, 0, 1, 3);
    // only row 4 is live: items x = 0 + col * 4 for col < 3
    assert_eq!(&c[..12], &[-1i64; 12][..]);
    assert_eq!(&c[12..], &[100, 104, 108][..]);
}

#[test]
fn border_vectors_are_copied_to_scratch() {
    let (m, n, mr, nr) = (5usize, 3usize, 4usize, 4usize);
    let specs = vec![
        FusedSpec::BinPerRow(vec![10i64, 20, 30, 40, 50], BinOp::Add),
        FusedSpec::BinPerCol(vec![7i64, 8, 9], BinOp::Mul),
        FusedSpec::Store(StoreView { row_stride: n, col_stride: 1 }),
    ];
    let mut sp = ScratchSpaceImpl::<i64>::new();
    sp.prepare(mr, nr, m, n, &specs).unwrap();
    assert_eq!(sp.uspecs.len(), specs.len() + 2);
    assert!(matches!(sp.uspecs[0], FusedKerSpec::Clear));
    assert!(matches!(sp.uspecs[4], FusedKerSpec::Done));
    sp.for_border_tile(&Panels::default(), &specs, 1, 0, 1, 3);
    let row_region = sp.loc_dependant[0].region;
    let col_region = sp.loc_dependant[1].region;
    assert_eq!(sp.tiles[row_region], 50);
    assert_eq!(&sp.tiles[col_region..col_region + 3], &[7, 8, 9][..]);
    match sp.uspecs[1] {
        FusedKerSpec::PerRow(BinOp::Add, p) => {
            assert_eq!(p, VecPtr { operand: Operand::Scratch, offset: row_region })
        }
        _ => panic!("per-row entry expected"),
    }
    // a full tile addresses the vectors in place
    sp.for_valid_tile(&Panels::default(), &specs, 0, 0);
    match sp.uspecs[1] {
        FusedKerSpec::PerRow(BinOp::Add, p) => {
            assert_eq!(p, VecPtr { operand: Operand::Chain { spec: 0, part: 0 }, offset: 0 })
        }
        _ => panic!("per-row entry expected"),
    }
}

#[test]
fn border_unicast_respects_item_count() {
    let (m, n, mr, nr) = (5usize, 3usize, 4usize, 4usize);
    // a view that holds only the first 13 items of the 5 x 3 output
    let uni = OutputStore { data: (0..13).map(|x| x as i64).collect(), row_stride: 3, col_stride: 1 };
    let specs = vec![FusedSpec::AddUnicast(uni)];
    let mut sp = ScratchSpaceImpl::<i64>::new();
    sp.prepare(mr, nr, m, n, &specs).unwrap();
    sp.for_border_tile(&Panels::default(), &specs, 1, 0, 1, 3);
    let r = sp.loc_dependant[0].region;
    // row 4, cols 0..3 sit at items 12, 13, 14: only 12 is inside the view
    assert_eq!(sp.tiles[r], 12);
    assert_eq!(sp.tiles[r + 4], 0);
    assert_eq!(sp.tiles[r + 8], 0);
}

#[test]
fn finalising_twice_gives_the_same_program() {
    let (m, n, mr, nr) = (9usize, 7usize, 4usize, 4usize);
    let specs = vec![
        FusedSpec::AddMatMul {
            a: PanelSource { k: 3, scratch_layout: Some(BufferLayout { size: 64, align: 16 }) },
            b: PanelSource { k: 3, scratch_layout: None },
        },
        FusedSpec::BinPerRow((0..9).collect(), BinOp::Max),
        FusedSpec::BinScalar(vec![3], BinOp::Add),
        FusedSpec::Store(StoreView { row_stride: n, col_stride: 1 }),
    ];
    let mut sp = ScratchSpaceImpl::<i64>::new();
    sp.prepare(mr, nr, m, n, &specs).unwrap();
    sp.for_valid_tile(&Panels::default(), &specs, 1, 0);
    let first = format!("{:?}", sp.uspecs);
    sp.for_valid_tile(&Panels::default(), &specs, 1, 0);
    assert_eq!(format!("{:?}", sp.uspecs), first);
    sp.for_border_tile(&Panels::default(), &specs, 2, 1, 1, 3);
    let border = format!("{:?}", sp.uspecs);
    sp.for_border_tile(&Panels::default(), &specs, 2, 1, 1, 3);
    assert_eq!(format!("{:?}", sp.uspecs), border);
    assert!(matches!(sp.uspecs[3], FusedKerSpec::Scalar(BinOp::Add, 3)));
}

#[test]
fn panels_fetched_once_per_index_in_a_grouped_sweep() {
    let (m, n, mr, nr) = (8usize, 8usize, 4usize, 4usize);
    let specs: Vec<FusedSpec<i64>> = vec![
        FusedSpec::AddMatMul {
            a: PanelSource { k: 2, scratch_layout: Some(BufferLayout { size: 8, align: 8 }) },
            b: PanelSource { k: 2, scratch_layout: None },
        },
        FusedSpec::Store(StoreView { row_stride: n, col_stride: 1 }),
    ];
    let prov = Panels::default();
    let mut sp = ScratchSpaceImpl::<i64>::new();
    sp.prepare(mr, nr, m, n, &specs).unwrap();
    assert!(sp.blob.len() >= sp.blob_size);
    let buffer_a = sp.loc_dependant[0].buffer_a.unwrap();
    for &(down, right) in &[(0usize, 0usize), (0, 1), (1, 0), (1, 1)] {
        sp.for_valid_tile(&prov, &specs, down, right);
        match sp.uspecs[1] {
            FusedKerSpec::AddMatMul { k, pa, pb } => {
                assert_eq!((k, pa.panel, pb.panel), (2, down, right));
                assert_eq!(pa.buffer, Some(buffer_a));
            }
            _ => panic!("matmul entry expected"),
        }
        // the A panel of this row was packed into the blob
        assert_eq!(sp.blob[buffer_a], down as u8);
    }
    let calls = prov.calls.borrow();
    let a_calls: Vec<usize> = calls.iter().filter(|c| c.0).map(|c| c.1).collect();
    let b_calls: Vec<usize> = calls.iter().filter(|c| !c.0).map(|c| c.1).collect();
    // row indices are visited in groups: one fetch each
    assert_eq!(a_calls, vec![0, 1]);
    // column indices alternate: the single memo misses on every tile
    assert_eq!(b_calls, vec![0, 1, 0, 1]);
    drop(calls);
    // repeating the last tile asks for nothing
    sp.for_valid_tile(&prov, &specs, 1, 1);
    assert_eq!(prov.calls.borrow().len(), 6);
}

#[test]
fn kernel_status_judged() {
    assert_eq!(check_kernel(0, 16, 16), Ok(()));
    assert_eq!(check_kernel(-2, 16, 16), Err(ScratchError::Kernel(-2)));
    assert_eq!(check_kernel(5, 16, 3), Err(ScratchError::Kernel(5)));
    assert_eq!(check_kernel(0, 16, 3), Err(ScratchError::KernelContract));
}

#[test]
fn execute_on_an_empty_output_calls_no_kernel() {
    let ker = RefKernel { a: vec![], b: vec![], m: 0, k: 2, n: 3, mr: 4, nr: 4, status: 7 };
    let specs = matmul_chain(2, 3);
    let mut sp = ScratchSpaceImpl::<i64>::new();
    let mut c: Vec<i64> = vec![];
    assert_eq!(sp.execute(&ker, &Panels::default(), 4, 4, 0, 3, &specs, &mut c), Ok(()));
}

#[test]
fn buffers_are_aligned_and_blob_alignment_is_the_lcm() {
    let specs: Vec<FusedSpec<i64>> = vec![
        FusedSpec::BinScalar(vec![1], BinOp::Min),
        FusedSpec::BinPerRow(vec![0; 6], BinOp::Add),
        FusedSpec::AddMatMul {
            a: PanelSource { k: 4, scratch_layout: Some(BufferLayout { size: 10, align: 16 }) },
            b: PanelSource { k: 4, scratch_layout: Some(BufferLayout { size: 3, align: 24 }) },
        },
        FusedSpec::Store(StoreView { row_stride: 5, col_stride: 1 }),
        FusedSpec::BinPerCol(vec![0; 5], BinOp::Add),
    ];
    let mut sp = ScratchSpaceImpl::<i64>::new();
    sp.prepare(4, 4, 6, 5, &specs).unwrap();
    let ld = sp.loc_dependant[1];
    assert_eq!(ld.spec, 2);
    let ba = ld.buffer_a.unwrap();
    let bb = ld.buffer_b.unwrap();
    assert_eq!(ba % 16, 0);
    assert_eq!(bb % 24, 0);
    assert!(ba >= ld.loc && bb >= ba + 10);
    let base = std::mem::size_of::<usize>();
    // lcm(pointer size, item and record alignments, 16, 24)
    assert_eq!(sp.blob_align, 48);
    // every record and copy area starts aligned for its type, even after
    // the odd-sized buffers
    for ld in sp.loc_dependant.iter() {
        assert_eq!(ld.loc % std::mem::align_of::<i64>(), 0);
    }
    assert_eq!(sp.blob_align % base, 0);
    assert!(sp.blob_size >= bb + 3);
}

#[test]
fn chain_errors_are_reported_first_to_last() {
    let mut sp = ScratchSpaceImpl::<i64>::new();
    let specs = vec![
        FusedSpec::BinPerRow(vec![1i64, 2], BinOp::Add),
        FusedSpec::BinScalar(vec![1i64, 2], BinOp::Add),
    ];
    assert_eq!(sp.prepare(4, 4, 3, 3, &specs), Err(ScratchError::BadShape(0)));
    let specs = vec![FusedSpec::LeakyRelu(vec![]), FusedSpec::BinPerRow(vec![1i64], BinOp::Add)];
    assert_eq!(sp.prepare(4, 4, 3, 3, &specs), Err(ScratchError::NotAScalar(0)));
    let specs: Vec<FusedSpec<i64>> = vec![FusedSpec::AddMatMul {
        a: PanelSource { k: 1, scratch_layout: Some(BufferLayout { size: 1, align: 0 }) },
        b: PanelSource { k: 1, scratch_layout: None },
    }];
    assert_eq!(sp.prepare(4, 4, 3, 3, &specs), Err(ScratchError::BadShape(0)));
    let specs: Vec<FusedSpec<i64>> =
        vec![FusedSpec::ShiftLeft(1), FusedSpec::Store(StoreView { row_stride: usize::MAX, col_stride: 1 })];
    assert_eq!(sp.prepare(4, 4, 3, 3, &specs), Err(ScratchError::BadShape(1)));
    let specs: Vec<FusedSpec<i64>> = vec![FusedSpec::AddMatMul {
        a: PanelSource { k: 1, scratch_layout: Some(BufferLayout { size: usize::MAX, align: 8 }) },
        b: PanelSource { k: 1, scratch_layout: None },
    }];
    assert_eq!(sp.prepare(4, 4, 3, 3, &specs), Err(ScratchError::LayoutOverflow));
}

#[test]
fn kernel_failure_is_an_internal_fault() {
    let (m, k, n) = (4usize, 2usize, 4usize);
    let ker = RefKernel { a: vec![1; m * k], b: vec![1; k * n], m, k, n, mr: 4, nr: 4, status: 3 };
    let specs = matmul_chain(k, n);
    let mut sp = ScratchSpaceImpl::<i64>::new();
    sp.prepare(4, 4, m, n, &specs).unwrap();
    let mut c = vec![0i64; m * n];
    assert_eq!(sp.run(&ker, &Panels::default(), &specs, &mut c, 0, 0), Err(ScratchError::Kernel(3)));
}

#[test]
fn execute_runs_the_whole_chain_on_every_tile() {
    let mut seed = 7u64;
    for &(m, k, n) in &[(5usize, 3usize, 3usize), (8, 2, 8), (13, 4, 6), (1, 1, 1)] {
        let a: Vec<i64> = (0..m * k).map(|_| lcg(&mut seed)).collect();
        let b: Vec<i64> = (0..k * n).map(|_| lcg(&mut seed)).collect();
        let rows: Vec<i64> = (0..m).map(|_| lcg(&mut seed)).collect();
        let cols: Vec<i64> = (0..n).map(|_| lcg(&mut seed)).collect();
        let ker = RefKernel { a: a.clone(), b: b.clone(), m, k, n, mr: 4, nr: 4, status: 0 };
        let specs = vec![
            FusedSpec::AddMatMul {
                a: PanelSource { k, scratch_layout: None },
                b: PanelSource { k, scratch_layout: None },
            },
            FusedSpec::BinPerRow(rows.clone(), BinOp::Add),
            FusedSpec::BinScalar(vec![3], BinOp::Mul),
            FusedSpec::BinPerCol(cols.clone(), BinOp::Max),
            FusedSpec::Store(StoreView { row_stride: n, col_stride: 1 }),
        ];
        let mut sp = ScratchSpaceImpl::<i64>::new();
        let mut c = vec![0i64; m * n];
        sp.execute(&ker, &Panels::default(), 4, 4, m, n, &specs, &mut c).unwrap();
        for i in 0..m {
            for j in 0..n {
                let dot: i64 = (0..k).map(|t| a[i * k + t] * b[t * n + j]).sum();
                assert_eq!(c[i * n + j], ((dot + rows[i]) * 3).max(cols[j]));
            }
        }
    }
}

#[test]
fn execute_refuses_a_bad_chain_before_any_kernel_call() {
    let ker = RefKernel { a: vec![], b: vec![], m: 2, k: 0, n: 2, mr: 4, nr: 4, status: 9 };
    let specs = vec![FusedSpec::BinScalar(vec![1i64, 2, 3], BinOp::Add)];
    let mut sp = ScratchSpaceImpl::<i64>::new();
    let mut c = vec![5i64; 4];
    assert_eq!(sp.execute(&ker, &Panels::default(), 4, 4, 2, 2, &specs, &mut c), Err(ScratchError::NotAScalar(0)));
    assert_eq!(c, vec![5i64; 4]);
}

#[test]
fn execute_refuses_an_output_too_short_for_its_store() {
    let (m, k, n) = (5usize, 2usize, 3usize);
    let ker = RefKernel { a: vec![1; m * k], b: vec![1; k * n], m, k, n, mr: 4, nr: 4, status: 0 };
    let specs = matmul_chain(k, n);
    let mut sp = ScratchSpaceImpl::<i64>::new();
    let mut c = vec![0i64; m * n - 1];
    assert_eq!(sp.execute(&ker, &Panels::default(), 4, 4, m, n, &specs, &mut c), Err(ScratchError::BadShape(1)));
    assert!(c.iter().all(|x| *x == 0));
}
