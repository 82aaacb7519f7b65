//! The scratch-space planner: turns a logical chain into a physical kernel
//! program with a table of the entries that depend on the tile, plans the
//! scratch layout, and finalises the program for each tile.
use vstd::prelude::*;
use crate::align::{
    divides,
    lemma_lcm_least,
    lemma_divides_trans,
    checked_lcm,
    checked_next_multiple_of,
    lcm,
    lemma_lcm_multiple,
    lemma_next_multiple,
    next_multiple_of,
};
use crate::fused::{
    BinOp,
    BufferLayout,
    FusedKerSpec,
    FusedSpec,
    Operand,
    OutputStore,
    PanelRef,
    PanelSource,
    ScratchError,
    StoreView,
    strided,
    TileView,
    VecPtr,
};

verus! {

broadcast use vstd::layout::layout_of_primitives;

/// A chain entry whose physical form depends on the tile: which chain entry
/// (`spec`), which program slot it fills (`uspec`), the byte offset of its
/// record in the scratch blob (`loc`), the byte offsets of the buffers its
/// panel sources asked for, and the item offset of its scratch items.
#[derive(Copy, Clone, Debug, PartialEq, Eq, Structural)]
pub struct LocDependant {
    pub spec: usize,
    pub uspec: usize,
    pub loc: usize,
    pub buffer_a: Option<usize>,
    pub buffer_b: Option<usize>,
    pub region: usize,
}

/// The panels last fetched for a matmul entry, and for which tile index.
/// `usize::MAX` stands for "none yet".
#[derive(Copy, Clone, Debug, PartialEq, Eq, Structural)]
pub struct PanelMemo {
    pub ptr_a: PanelRef,
    pub panel_a_id: usize,
    pub ptr_b: PanelRef,
    pub panel_b_id: usize,
}

/// The sizes that the layout is made of: tile shape, item size, size of a
/// panel memo record, the alignment the blob starts with, and the
/// alignments of an item and of a memo record.
pub struct Geometry {
    pub mr: nat,
    pub nr: nat,
    pub item: nat,
    pub memo: nat,
    pub base: nat,
    pub item_align: nat,
    pub memo_align: nat,
}

pub open spec fn geometry<T>(mr: nat, nr: nat) -> Geometry {
    Geometry {
        mr,
        nr,
        item: vstd::layout::size_of::<T>(),
        memo: vstd::layout::size_of::<PanelMemo>(),
        base: vstd::layout::size_of::<usize>(),
        item_align: vstd::layout::align_of::<T>(),
        memo_align: vstd::layout::align_of::<PanelMemo>(),
    }
}

/// Whether the physical form of an entry depends on the tile.
pub open spec fn is_loc_dependant<T>(s: FusedSpec<T>) -> bool {
    match s {
        FusedSpec::BinPerRow(..) | FusedSpec::BinPerCol(..) | FusedSpec::AddRowColProducts(..)
        | FusedSpec::AddUnicast(..) | FusedSpec::Store(..) | FusedSpec::AddMatMul { .. } => true,
        _ => false,
    }
}

/// How many scratch items an entry needs for a border tile.
pub open spec fn region_len<T>(s: FusedSpec<T>, mr: nat, nr: nat) -> nat {
    match s {
        FusedSpec::BinPerRow(..) => mr,
        FusedSpec::BinPerCol(..) => nr,
        FusedSpec::AddRowColProducts(..) => mr + nr,
        FusedSpec::AddUnicast(..) | FusedSpec::Store(..) => mr * nr,
        _ => 0,
    }
}

/// The physical entry of a tile-independent chain entry; tile-dependent
/// ones hold `Done` until a tile is finalised.
pub open spec fn static_uspec<T>(s: FusedSpec<T>) -> FusedKerSpec<T> {
    match s {
        FusedSpec::BinScalar(t, op) => FusedKerSpec::Scalar(op, t@[0]),
        FusedSpec::LeakyRelu(t) => FusedKerSpec::LeakyRelu(t@[0]),
        FusedSpec::ShiftLeft(s) => FusedKerSpec::ShiftLeft(s),
        FusedSpec::RoundingShiftRight(s, rp) => FusedKerSpec::RoundingShiftRight(s, rp),
        FusedSpec::QScale(s, rp, m) => FusedKerSpec::QScale(s, rp, m),
        _ => FusedKerSpec::Done,
    }
}

/// Whether a panel source's buffer request is usable.
pub open spec fn layout_ok(l: Option<BufferLayout>) -> bool {
    match l {
        Some(l) => l.align > 0,
        None => true,
    }
}

/// What is wrong with entry `ix` of a chain for an `m` by `n` output.
pub open spec fn entry_error<T>(s: FusedSpec<T>, ix: nat, m: nat, n: nat) -> Option<ScratchError> {
    match s {
        FusedSpec::BinScalar(t, _) | FusedSpec::LeakyRelu(t) => if t@.len() != 1 {
            Some(ScratchError::NotAScalar(ix as usize))
        } else {
            None
        },
        FusedSpec::BinPerRow(v, _) => if v@.len() != m {
            Some(ScratchError::BadShape(ix as usize))
        } else {
            None
        },
        FusedSpec::BinPerCol(v, _) => if v@.len() != n {
            Some(ScratchError::BadShape(ix as usize))
        } else {
            None
        },
        FusedSpec::AddRowColProducts(r, c) => if r@.len() != m || c@.len() != n {
            Some(ScratchError::BadShape(ix as usize))
        } else {
            None
        },
        FusedSpec::AddUnicast(st) => if m * st.row_stride + n * st.col_stride > usize::MAX {
            Some(ScratchError::BadShape(ix as usize))
        } else {
            None
        },
        FusedSpec::Store(st) => if m * st.row_stride + n * st.col_stride > usize::MAX {
            Some(ScratchError::BadShape(ix as usize))
        } else {
            None
        },
        FusedSpec::AddMatMul { a, b } => if !layout_ok(a.scratch_layout) || !layout_ok(
            b.scratch_layout,
        ) {
            Some(ScratchError::BadShape(ix as usize))
        } else {
            None
        },
        _ => None,
    }
}

/// The first error among the first `i` entries of a chain.
pub open spec fn first_error<T>(specs: Seq<FusedSpec<T>>, i: nat, m: nat, n: nat) -> Option<
    ScratchError,
>
    decreases i,
{
    if i == 0 {
        None
    } else {
        match first_error(specs, (i - 1) as nat, m, n) {
            Some(e) => Some(e),
            None => entry_error(specs[i - 1], (i - 1) as nat, m, n),
        }
    }
}

/// The layout planned so far: bytes used, alignment, scratch items used,
/// and the tile-dependent entries met.
pub struct Walk {
    pub offset: nat,
    pub align: nat,
    pub region: nat,
    pub lds: Seq<LocDependant>,
}

/// Puts `size` bytes of alignment `a` at the first offset not below `off`
/// that is a multiple of `a`: (offset after them, new alignment, their
/// offset).
pub open spec fn put(off: nat, align: nat, size: nat, a: nat) -> (nat, nat, nat) {
    (next_multiple_of(off, a) + size, lcm(a, align), next_multiple_of(off, a))
}

/// Places a buffer request: (offset after it, new alignment, its offset).
pub open spec fn place(off: nat, align: nat, l: Option<BufferLayout>) -> (nat, nat, Option<nat>) {
    match l {
        Some(l) => {
            let p = put(off, align, l.size as nat, l.align as nat);
            (p.0, p.1, Some(p.2))
        },
        None => (off, align, None),
    }
}

pub open spec fn opt_usize(o: Option<nat>) -> Option<usize> {
    match o {
        Some(x) => Some(x as usize),
        None => None,
    }
}

/// The layout after one more entry, `s`, at index `ix`.
pub open spec fn step<T>(w: Walk, ix: nat, s: FusedSpec<T>, g: Geometry) -> Walk {
    if !is_loc_dependant(s) {
        w
    } else {
        match s {
            FusedSpec::AddMatMul { a, b } => {
                let pm = put(w.offset, w.align, g.memo, g.memo_align);
                let pa = place(pm.0, pm.1, a.scratch_layout);
                let pb = place(pa.0, pa.1, b.scratch_layout);
                Walk {
                    offset: pb.0,
                    align: pb.1,
                    region: w.region,
                    lds: w.lds.push(
                        LocDependant {
                            spec: ix as usize,
                            uspec: (ix + 1) as usize,
                            loc: pm.2 as usize,
                            buffer_a: opt_usize(pa.2),
                            buffer_b: opt_usize(pb.2),
                            region: w.region as usize,
                        },
                    ),
                }
            },
            _ => {
                let pv = put(w.offset, w.align, g.item * region_len(s, g.mr, g.nr), g.item_align);
                Walk {
                offset: pv.0,
                align: pv.1,
                region: w.region + region_len(s, g.mr, g.nr),
                lds: w.lds.push(
                    LocDependant {
                        spec: ix as usize,
                        uspec: (ix + 1) as usize,
                        loc: pv.2 as usize,
                        buffer_a: None,
                        buffer_b: None,
                        region: w.region as usize,
                    },
                ),
                }
            },
        }
    }
}

/// The layout of the first `i` entries of a chain.
pub open spec fn walk<T>(specs: Seq<FusedSpec<T>>, i: nat, g: Geometry) -> Walk
    decreases i,
{
    if i == 0 {
        Walk { offset: 0, align: g.base, region: 0, lds: Seq::empty() }
    } else {
        step(walk(specs, (i - 1) as nat, g), (i - 1) as nat, specs[i - 1], g)
    }
}

/// Every prefix of the layout fits in machine integers.
pub open spec fn layout_fits<T>(specs: Seq<FusedSpec<T>>, g: Geometry) -> bool {
    forall|i: nat|
        i <= specs.len() ==> #[trigger] walk(specs, i, g).offset <= usize::MAX && walk(
            specs,
            i,
            g,
        ).align <= usize::MAX && walk(specs, i, g).region <= usize::MAX
}


/// Two chains agree on everything that a plan depends on: the kind and
/// operation of each entry, vector lengths, view strides and lengths, and
/// panel sources. Scalars and the contents of vectors may differ.
pub open spec fn shape_eq<T>(a: FusedSpec<T>, b: FusedSpec<T>) -> bool {
    match (a, b) {
        (FusedSpec::BinScalar(t, p), FusedSpec::BinScalar(u, q)) => t@.len() == u@.len() && p == q,
        (FusedSpec::LeakyRelu(t), FusedSpec::LeakyRelu(u)) => t@.len() == u@.len(),
        (FusedSpec::BinPerRow(v, p), FusedSpec::BinPerRow(w, q)) => v@.len() == w@.len() && p == q,
        (FusedSpec::BinPerCol(v, p), FusedSpec::BinPerCol(w, q)) => v@.len() == w@.len() && p == q,
        (FusedSpec::AddRowColProducts(r, c), FusedSpec::AddRowColProducts(s, d)) => r@.len()
            == s@.len() && c@.len() == d@.len(),
        (FusedSpec::AddUnicast(s), FusedSpec::AddUnicast(t)) => s.row_stride == t.row_stride
            && s.col_stride == t.col_stride && s.data@.len() == t.data@.len(),
        (FusedSpec::Store(s), FusedSpec::Store(t)) => s == t,
        (FusedSpec::AddMatMul { a, b }, FusedSpec::AddMatMul { a: c, b: d }) => a == c && b == d,
        (FusedSpec::ShiftLeft(x), FusedSpec::ShiftLeft(y)) => x == y,
        (FusedSpec::RoundingShiftRight(x, p), FusedSpec::RoundingShiftRight(y, q)) => x == y && p
            == q,
        (FusedSpec::QScale(x, p, u), FusedSpec::QScale(y, q, v)) => x == y && p == q && u == v,
        _ => false,
    }
}

pub open spec fn same_shapes<T>(a: Seq<FusedSpec<T>>, b: Seq<FusedSpec<T>>) -> bool {
    a.len() == b.len() && forall|i: int| 0 <= i < a.len() ==> shape_eq(#[trigger] a[i], b[i])
}

/// The scratch space of one worker: the physical program, the table of
/// tile-dependent entries, the panel memos, the scratch items of border
/// tiles, and the byte layout of the scratch blob.
pub struct ScratchSpaceImpl<T> {
    pub uspecs: Vec<FusedKerSpec<T>>,
    pub loc_dependant: Vec<LocDependant>,
    pub memos: Vec<PanelMemo>,
    pub tiles: Vec<T>,
    /// The scratch blob that panel sources pack into.
    pub blob: Vec<u8>,
    pub blob_size: usize,
    pub blob_align: usize,
    pub mr: usize,
    pub nr: usize,
    pub m: usize,
    pub n: usize,
    pub valid_down_tiles: usize,
    pub remnant_down: usize,
    pub valid_right_tiles: usize,
    pub remnant_right: usize,
    /// The chain this space was prepared for.
    pub chain: Ghost<Seq<FusedSpec<T>>>,
}

/// A memo that no tile has filled yet.
pub open spec fn memo_reset(p: PanelMemo) -> bool {
    p.panel_a_id == usize::MAX && p.panel_b_id == usize::MAX
}

impl<T> ScratchSpaceImpl<T> {
    pub open spec fn geom(&self) -> Geometry {
        geometry::<T>(self.mr as nat, self.nr as nat)
    }

    /// The layout planned for the chain.
    pub open spec fn plan(&self) -> Walk {
        walk(self.chain@, self.chain@.len(), self.geom())
    }

    /// The space holds a plan for its chain.
    pub open spec fn wf(&self) -> bool {
        let len = self.chain@.len();
        &&& self.mr > 0 && self.nr > 0
        &&& vstd::layout::align_of::<T>() > 0 && vstd::layout::align_of::<PanelMemo>() > 0
        &&& len <= usize::MAX
        &&& first_error(self.chain@, len, self.m as nat, self.n as nat) is None
        &&& layout_fits(self.chain@, self.geom())
        &&& self.loc_dependant@ == self.plan().lds
        &&& self.memos@.len() == self.loc_dependant@.len()
        &&& self.tiles@.len() == self.plan().region
        &&& self.blob_size >= self.plan().offset
        &&& self.blob_align == self.plan().align
        &&& self.uspecs@.len() == len + 2
        &&& self.uspecs@[0] == FusedKerSpec::<T>::Clear
        &&& self.uspecs@[len as int + 1] == FusedKerSpec::<T>::Done
        &&& forall|i: int|
            0 <= i < len && !is_loc_dependant(self.chain@[i]) ==> #[trigger] self.uspecs@[i + 1]
                == static_uspec(self.chain@[i])
        &&& self.valid_down_tiles == self.m / self.mr
        &&& self.remnant_down == self.m % self.mr
        &&& self.valid_right_tiles == self.n / self.nr
        &&& self.remnant_right == self.n % self.nr
    }
}

proof fn lemma_no_error<T>(specs: Seq<FusedSpec<T>>, i: nat, m: nat, n: nat)
    requires
        i <= specs.len(),
        first_error(specs, i, m, n) is None,
    ensures
        forall|k: int| 0 <= k < i ==> (#[trigger] entry_error(specs[k], k as nat, m, n)) is None,
    decreases i,
{
    if i > 0 {
        lemma_no_error(specs, (i - 1) as nat, m, n);
    }
}

proof fn lemma_put(off: nat, align: nat, size: nat, a: nat)
    requires
        align > 0,
        a > 0,
    ensures
        put(off, align, size, a).0 >= put(off, align, size, a).2 + size,
        put(off, align, size, a).2 >= off,
        put(off, align, size, a).1 >= align,
        put(off, align, size, a).1 > 0,
        divides(a, put(off, align, size, a).2),
        divides(a, put(off, align, size, a).1),
        divides(align, put(off, align, size, a).1),
{
    lemma_next_multiple(off, a);
    lemma_lcm_multiple(a, align);
}

/// Puts `size` bytes of alignment `a` after `off`, or `None` where the
/// result does not fit.
fn put_exec(off: usize, align: usize, size: usize, a: usize) -> (r: Option<(usize, usize, usize)>)
    requires
        align > 0,
        a > 0,
    ensures
        r matches Some(t) ==> t.0 == put(off as nat, align as nat, size as nat, a as nat).0 && t.1 == put(
            off as nat,
            align as nat,
            size as nat,
            a as nat,
        ).1 && t.2 == put(off as nat, align as nat, size as nat, a as nat).2,
        r is None ==> put(off as nat, align as nat, size as nat, a as nat).0 > usize::MAX || put(
            off as nat,
            align as nat,
            size as nat,
            a as nat,
        ).1 > usize::MAX,
{
    proof {
        lemma_put(off as nat, align as nat, size as nat, a as nat);
    }
    match checked_next_multiple_of(off, a) {
        None => None,
        Some(at) => match (at.checked_add(size), checked_lcm(a, align)) {
            (Some(end), Some(al)) => Some((end, al, at)),
            _ => None,
        },
    }
}

proof fn lemma_place(off: nat, align: nat, l: Option<BufferLayout>)
    requires
        align > 0,
        layout_ok(l),
    ensures
        place(off, align, l).0 >= off,
        place(off, align, l).1 >= align,
        place(off, align, l).1 > 0,
        place(off, align, l).2 matches Some(b) ==> off <= b <= place(off, align, l).0,
{
    if let Some(l) = l {
        lemma_next_multiple(off, l.align as nat);
        lemma_lcm_multiple(l.align as nat, align);
    }
}

/// Whether every item offset of an `m` by `n` strided view fits.
fn view_fits(m: usize, n: usize, rs: usize, cs: usize) -> (r: bool)
    ensures
        r == (m * rs + n * cs <= usize::MAX),
{
    proof {
        assert(m * rs >= 0 && n * cs >= 0) by (nonlinear_arith);
    }
    match (m.checked_mul(rs), n.checked_mul(cs)) {
        (Some(x), Some(y)) => x.checked_add(y).is_some(),
        _ => false,
    }
}

/// The error of entry `ix`, if any.
fn check_entry<T>(s: &FusedSpec<T>, ix: usize, m: usize, n: usize) -> (r: Option<ScratchError>)
    ensures
        r == entry_error(*s, ix as nat, m as nat, n as nat),
{
    match s {
        FusedSpec::BinScalar(t, _) | FusedSpec::LeakyRelu(t) => if t.len() != 1 {
            Some(ScratchError::NotAScalar(ix))
        } else {
            None
        },
        FusedSpec::BinPerRow(v, _) => if v.len() != m {
            Some(ScratchError::BadShape(ix))
        } else {
            None
        },
        FusedSpec::BinPerCol(v, _) => if v.len() != n {
            Some(ScratchError::BadShape(ix))
        } else {
            None
        },
        FusedSpec::AddRowColProducts(r, c) => if r.len() != m || c.len() != n {
            Some(ScratchError::BadShape(ix))
        } else {
            None
        },
        FusedSpec::AddUnicast(st) => if view_fits(m, n, st.row_stride, st.col_stride) {
            None
        } else {
            Some(ScratchError::BadShape(ix))
        },
        FusedSpec::Store(st) => if view_fits(m, n, st.row_stride, st.col_stride) {
            None
        } else {
            Some(ScratchError::BadShape(ix))
        },
        FusedSpec::AddMatMul { a, b } => {
            let ok_a = match a.scratch_layout {
                Some(l) => l.align > 0,
                None => true,
            };
            let ok_b = match b.scratch_layout {
                Some(l) => l.align > 0,
                None => true,
            };
            if !ok_a || !ok_b {
                Some(ScratchError::BadShape(ix))
            } else {
                None
            }
        },
        _ => None,
    }
}

/// Places a buffer request, or `None` where the result does not fit.
fn place_exec(off: usize, align: usize, l: Option<BufferLayout>) -> (r: Option<
    (usize, usize, Option<usize>),
>)
    requires
        align > 0,
        layout_ok(l),
    ensures
        r matches Some(t) ==> t.0 == place(off as nat, align as nat, l).0 && t.1 == place(
            off as nat,
            align as nat,
            l,
        ).1 && t.2 == opt_usize(place(off as nat, align as nat, l).2),
        r is None ==> place(off as nat, align as nat, l).0 > usize::MAX || place(
            off as nat,
            align as nat,
            l,
        ).1 > usize::MAX,
{
    proof {
        lemma_place(off as nat, align as nat, l);
    }
    match l {
        None => Some((off, align, None)),
        Some(l) => {
            proof {
                lemma_next_multiple(off as nat, l.align as nat);
            }
            match checked_next_multiple_of(off, l.align) {
                None => None,
                Some(at) => match (at.checked_add(l.size), checked_lcm(l.align, align)) {
                    (Some(end), Some(al)) => Some((end, al, Some(at))),
                    _ => None,
                },
            }
        },
    }
}


/// The physical entry of entry `s` before any tile: its own form where it
/// does not depend on the tile, else `Done` until the tile is known.
fn static_uspec_exec<T: Copy>(s: &FusedSpec<T>, Ghost(ix): Ghost<nat>, Ghost(m): Ghost<nat>, Ghost(n): Ghost<nat>) -> (r: FusedKerSpec<T>)
    requires
        entry_error(*s, ix, m, n) is None,
    ensures
        r == static_uspec(*s),
{
    match s {
        FusedSpec::BinScalar(t, op) => FusedKerSpec::Scalar(*op, t[0]),
        FusedSpec::LeakyRelu(t) => FusedKerSpec::LeakyRelu(t[0]),
        FusedSpec::ShiftLeft(x) => FusedKerSpec::ShiftLeft(*x),
        FusedSpec::RoundingShiftRight(x, rp) => FusedKerSpec::RoundingShiftRight(*x, *rp),
        FusedSpec::QScale(x, rp, mult) => FusedKerSpec::QScale(*x, *rp, *mult),
        _ => FusedKerSpec::Done,
    }
}

impl<T: Copy + Default> ScratchSpaceImpl<T> {
    /// An empty scratch space, to be prepared before use.
    pub fn new() -> (r: Self)
        ensures
            r.blob_size == 0,
            r.uspecs@.len() == 0,
            r.loc_dependant@.len() == 0,
    {
        ScratchSpaceImpl {
            uspecs: Vec::new(),
            loc_dependant: Vec::new(),
            memos: Vec::new(),
            tiles: Vec::new(),
            blob: Vec::new(),
            blob_size: 0,
            blob_align: 1,
            mr: 0,
            nr: 0,
            m: 0,
            n: 0,
            valid_down_tiles: 0,
            remnant_down: 0,
            valid_right_tiles: 0,
            remnant_right: 0,
            chain: Ghost(Seq::empty()),
        }
    }

    /// Plans the chain `specs` for an `m` by `n` output cut in `mr` by `nr`
    /// tiles: validates every entry, fails on the first bad one, builds the
    /// physical program and the table of tile-dependent entries, lays out
    /// the scratch blob and resets the panel memos.
    pub fn prepare(&mut self, mr: usize, nr: usize, m: usize, n: usize, specs: &Vec<FusedSpec<T>>) -> (r: Result<(), ScratchError>)
        requires
            mr > 0,
            nr > 0,
        ensures
            first_error(specs@, specs@.len(), m as nat, n as nat) matches Some(e) ==> r == Err::<(), ScratchError>(e),
            first_error(specs@, specs@.len(), m as nat, n as nat) is None && !layout_fits(specs@, geometry::<T>(mr as nat, nr as nat)) ==> r == Err::<(), ScratchError>(ScratchError::LayoutOverflow),
            first_error(specs@, specs@.len(), m as nat, n as nat) is None && layout_fits(specs@, geometry::<T>(mr as nat, nr as nat)) ==> {
                &&& r is Ok
                &&& final(self).wf()
                &&& final(self).chain@ == specs@
                &&& final(self).mr == mr && final(self).nr == nr
                &&& final(self).m == m && final(self).n == n
                &&& forall|i: int| 0 <= i < specs@.len() ==> #[trigger] final(self).uspecs@[i + 1] == static_uspec(specs@[i])
                &&& forall|j: int| 0 <= j < final(self).memos@.len() ==> memo_reset(#[trigger] final(self).memos@[j])
                &&& final(self).blob@.len() >= final(self).blob_size
                &&& final(self).blob_size == if old(self).blob_size >= final(self).plan().offset { old(self).blob_size as nat } else { final(self).plan().offset }
            },
    {
        let len = specs.len();
        let ghost g = geometry::<T>(mr as nat, nr as nat);
        let mut i: usize = 0;
        while i < len
            invariant
                len == specs@.len(),
                i <= len,
                first_error(specs@, i as nat, m as nat, n as nat) is None,
            decreases len - i,
        {
            match check_entry(&specs[i], i, m, n) {
                Some(e) => {
                    proof {
                        lemma_first_error_sticks(specs@, (i + 1) as nat, len as nat, m as nat, n as nat);
                    }
                    return Err(e);
                },
                None => {},
            }
            i = i + 1;
        }
        proof {
            lemma_no_error(specs@, len as nat, m as nat, n as nat);
        }
        let item = core::mem::size_of::<T>();
        let memo = core::mem::size_of::<PanelMemo>();
        vstd::layout::layout_for_type_is_valid::<T>();
        vstd::layout::layout_for_type_is_valid::<PanelMemo>();
        let item_align = core::mem::align_of::<T>();
        let memo_align = core::mem::align_of::<PanelMemo>();
        let mut uspecs: Vec<FusedKerSpec<T>> = Vec::new();
        uspecs.push(FusedKerSpec::Clear);
        let mut lds: Vec<LocDependant> = Vec::new();
        let mut memos: Vec<PanelMemo> = Vec::new();
        let mut offset: usize = 0;
        let mut align: usize = core::mem::size_of::<usize>();
        let mut region: usize = 0;
        let reset = PanelMemo {
            ptr_a: PanelRef { panel: 0, buffer: None },
            panel_a_id: usize::MAX,
            ptr_b: PanelRef { panel: 0, buffer: None },
            panel_b_id: usize::MAX,
        };
        i = 0;
        while i < len
            invariant
                len == specs@.len(),
                i <= len,
                mr > 0,
                nr > 0,
                item == g.item,
                memo == g.memo,
                item_align == g.item_align,
                memo_align == g.memo_align,
                item_align > 0,
                memo_align > 0,
                g == geometry::<T>(mr as nat, nr as nat),
                first_error(specs@, len as nat, m as nat, n as nat) is None,
                forall|k: int| 0 <= k < len ==> (#[trigger] entry_error(specs@[k], k as nat, m as nat, n as nat)) is None,
                uspecs@.len() == i + 1,
                uspecs@[0] == FusedKerSpec::<T>::Clear,
                forall|k: int| 0 <= k < i ==> #[trigger] uspecs@[k + 1] == static_uspec(specs@[k]),
                offset == walk(specs@, i as nat, g).offset,
                align == walk(specs@, i as nat, g).align,
                align > 0,
                region == walk(specs@, i as nat, g).region,
                lds@ == walk(specs@, i as nat, g).lds,
                memos@.len() == lds@.len(),
                forall|j: int| 0 <= j < memos@.len() ==> #[trigger] memos@[j] == reset,
                forall|k: nat| k <= i ==> #[trigger] walk(specs@, k, g).offset <= usize::MAX && walk(specs@, k, g).align <= usize::MAX && walk(specs@, k, g).region <= usize::MAX,
            decreases len - i,
        {
            let ghost w = walk(specs@, i as nat, g);
            let ghost w1 = walk(specs@, (i + 1) as nat, g);
            assert(w1 == step(w, i as nat, specs@[i as int], g));
            let s = &specs[i];
            let u = static_uspec_exec(s, Ghost(i as nat), Ghost(m as nat), Ghost(n as nat));
            match s {
                FusedSpec::AddMatMul { a, b } => {
                    let ghost pm = put(w.offset, w.align, g.memo, g.memo_align);
                    proof {
                        lemma_put(w.offset, w.align, g.memo, g.memo_align);
                        lemma_place(pm.0, pm.1, a.scratch_layout);
                        let pa = place(pm.0, pm.1, a.scratch_layout);
                        lemma_place(pa.0, pa.1, b.scratch_layout);
                    }
                    let (o1, al1, loc) = match put_exec(offset, align, memo, memo_align) {
                        Some(t) => t,
                        None => {
                            proof {
                                assert(walk(specs@, (i + 1) as nat, g).offset > usize::MAX || walk(specs@, (i + 1) as nat, g).align > usize::MAX);
                            }
                            return Err(ScratchError::LayoutOverflow);
                        },
                    };
                    let (o2, al2, ba) = match place_exec(o1, al1, a.scratch_layout) {
                        Some(t) => t,
                        None => {
                            proof {
                                assert(walk(specs@, (i + 1) as nat, g).offset > usize::MAX || walk(specs@, (i + 1) as nat, g).align > usize::MAX);
                            }
                            return Err(ScratchError::LayoutOverflow);
                        },
                    };
                    let (o3, al3, bb) = match place_exec(o2, al2, b.scratch_layout) {
                        Some(t) => t,
                        None => {
                            proof {
                                assert(walk(specs@, (i + 1) as nat, g).offset > usize::MAX || walk(specs@, (i + 1) as nat, g).align > usize::MAX);
                            }
                            return Err(ScratchError::LayoutOverflow);
                        },
                    };
                    lds.push(LocDependant { spec: i, uspec: i + 1, loc, buffer_a: ba, buffer_b: bb, region });
                    memos.push(reset);
                    offset = o3;
                    align = al3;
                },
                FusedSpec::BinPerRow(..) | FusedSpec::BinPerCol(..) | FusedSpec::AddRowColProducts(..) | FusedSpec::AddUnicast(..) | FusedSpec::Store(..) => {
                    let rl = match s {
                        FusedSpec::BinPerRow(..) => Some(mr),
                        FusedSpec::BinPerCol(..) => Some(nr),
                        FusedSpec::AddRowColProducts(..) => mr.checked_add(nr),
                        _ => mr.checked_mul(nr),
                    };
                    proof {
                        assert(g.item * region_len(*s, g.mr, g.nr) >= 0) by (nonlinear_arith);
                        assert(mr * nr >= 0) by (nonlinear_arith);
                    }
                    let (bytes, new_region) = match rl {
                        None => {
                            proof { assert(w1.region > usize::MAX); }
                            return Err(ScratchError::LayoutOverflow);
                        },
                        Some(rl) => match (item.checked_mul(rl), region.checked_add(rl)) {
                            (Some(bytes), Some(nreg)) => (bytes, nreg),
                            _ => {
                                proof {
                                    lemma_put(w.offset, w.align, g.item * region_len(*s, g.mr, g.nr), g.item_align);
                                    assert(w1.offset > usize::MAX || w1.region > usize::MAX);
                                }
                                return Err(ScratchError::LayoutOverflow);
                            },
                        },
                    };
                    let (new_off, new_align, loc) = match put_exec(offset, align, bytes, item_align) {
                        Some(t) => t,
                        None => {
                            proof { assert(w1.offset > usize::MAX || w1.align > usize::MAX); }
                            return Err(ScratchError::LayoutOverflow);
                        },
                    };
                    proof {
                        lemma_put(w.offset, w.align, g.item * region_len(*s, g.mr, g.nr), g.item_align);
                    }
                    lds.push(LocDependant { spec: i, uspec: i + 1, loc, buffer_a: None, buffer_b: None, region });
                    memos.push(reset);
                    offset = new_off;
                    align = new_align;
                    region = new_region;
                },
                _ => {},
            }
            uspecs.push(u);
            i = i + 1;
            proof {
                assert forall|k: nat| k <= i implies #[trigger] walk(specs@, k, g).offset <= usize::MAX && walk(specs@, k, g).align <= usize::MAX && walk(specs@, k, g).region <= usize::MAX by {
                    if k == i {
                        assert(walk(specs@, k, g) == w1);
                    }
                }
                assert forall|k: int| 0 <= k < i implies #[trigger] uspecs@[k + 1] == static_uspec(specs@[k]) by {
                    if k == i - 1 {
                        assert(uspecs@[k + 1] == u);
                    }
                }
            }
        }
        uspecs.push(FusedKerSpec::Done);
        let mut tiles: Vec<T> = Vec::new();
        let mut t: usize = 0;
        while t < region
            invariant
                t <= region,
                tiles@.len() == t,
            decreases region - t,
        {
            tiles.push(T::default());
            t = t + 1;
        }
        if offset > self.blob_size {
            self.blob_size = offset;
        }
        let mut blob: Vec<u8> = Vec::new();
        core::mem::swap(&mut blob, &mut self.blob);
        let blob_size = self.blob_size;
        while blob.len() < blob_size
            decreases blob_size - blob@.len(),
        {
            blob.push(0u8);
        }
        self.blob = blob;
        self.blob_align = align;
        self.uspecs = uspecs;
        self.loc_dependant = lds;
        self.memos = memos;
        self.tiles = tiles;
        self.mr = mr;
        self.nr = nr;
        self.m = m;
        self.n = n;
        self.valid_down_tiles = m / mr;
        self.remnant_down = m % mr;
        self.valid_right_tiles = n / nr;
        self.remnant_right = n % nr;
        self.chain = Ghost(specs@);
        proof {
            assert(layout_fits(specs@, g));
        }
        Ok(())
    }
}

proof fn lemma_first_error_sticks<T>(specs: Seq<FusedSpec<T>>, i: nat, k: nat, m: nat, n: nat)
    requires
        i <= k <= specs.len(),
        first_error(specs, i, m, n) is Some,
    ensures
        first_error(specs, k, m, n) == first_error(specs, i, m, n),
    decreases k - i,
{
    if k > i {
        lemma_first_error_sticks(specs, i, (k - 1) as nat, m, n);
    }
}


/// The layout fits in machine integers up to its `i`-th prefix.
pub open spec fn fits_upto<T>(specs: Seq<FusedSpec<T>>, i: nat, g: Geometry) -> bool {
    forall|k: nat|
        k <= i ==> #[trigger] walk(specs, k, g).offset <= usize::MAX && walk(specs, k, g).align
            <= usize::MAX && walk(specs, k, g).region <= usize::MAX
}

/// The table of tile-dependent entries lists each such entry once, in
/// chain order, with the slot after it and disjoint scratch items.
pub proof fn lemma_walk_lds<T>(specs: Seq<FusedSpec<T>>, i: nat, g: Geometry)
    requires
        i <= specs.len() <= usize::MAX,
        fits_upto(specs, i, g),
    ensures
        ({
            let lds = walk(specs, i, g).lds;
            &&& forall|j: int|
                0 <= j < lds.len() ==> {
                    &&& (#[trigger] lds[j]).spec < i
                    &&& lds[j].uspec == lds[j].spec + 1
                    &&& is_loc_dependant(specs[lds[j].spec as int])
                    &&& lds[j].region + region_len(specs[lds[j].spec as int], g.mr, g.nr) <= walk(
                        specs,
                        i,
                        g,
                    ).region
                }
            &&& forall|j: int, k: int|
                0 <= j < k < lds.len() ==> (#[trigger] lds[j]).spec < (#[trigger] lds[k]).spec
                    && lds[j].region + region_len(specs[lds[j].spec as int], g.mr, g.nr)
                    <= lds[k].region
            &&& forall|x: int|
                0 <= x < i && is_loc_dependant(#[trigger] specs[x]) ==> exists|j: int|
                    0 <= j < lds.len() && (#[trigger] lds[j]).spec == x
        }),
    decreases i,
{
    if i > 0 {
        let p = (i - 1) as nat;
        assert(fits_upto(specs, p, g));
        lemma_walk_lds(specs, p, g);
        let w = walk(specs, p, g);
        let w1 = walk(specs, i, g);
        assert(walk(specs, p, g).offset <= usize::MAX);
        assert(walk(specs, i, g).offset <= usize::MAX);
        assert(w1.region >= w.region);
        if is_loc_dependant(specs[p as int]) {
            assert(w1.lds == w.lds.push(w1.lds.last()));
            assert(w1.lds.last().spec == p);
            assert(w1.lds.last().region == w.region);
            assert forall|x: int|
                0 <= x < i && is_loc_dependant(#[trigger] specs[x]) implies exists|j: int|
                0 <= j < w1.lds.len() && (#[trigger] w1.lds[j]).spec == x by {
                if x == p {
                    assert(w1.lds[w.lds.len() as int].spec == x);
                } else {
                    let j = choose|j: int| 0 <= j < w.lds.len() && (#[trigger] w.lds[j]).spec == x;
                    assert(w1.lds[j] == w.lds[j]);
                }
            }
        } else {
            assert(w1 == w);
        }
    }
}

/// The physical entry of a tile-dependent entry on a full tile at
/// `(down, right)`: vectors and views addressed in place, panels as the
/// entry's memo holds them after the tile.
pub open spec fn valid_entry<T>(s: FusedSpec<T>, ld: LocDependant, memo: PanelMemo, down: nat, right: nat, mr: nat, nr: nat) -> FusedKerSpec<T> {
    match s {
        FusedSpec::BinPerRow(_, op) => FusedKerSpec::PerRow(
            op,
            VecPtr { operand: Operand::Chain { spec: ld.spec, part: 0 }, offset: (down * mr) as usize },
        ),
        FusedSpec::BinPerCol(_, op) => FusedKerSpec::PerCol(
            op,
            VecPtr { operand: Operand::Chain { spec: ld.spec, part: 0 }, offset: (right * nr) as usize },
        ),
        FusedSpec::AddRowColProducts(..) => FusedKerSpec::AddRowColProducts(
            VecPtr { operand: Operand::Chain { spec: ld.spec, part: 0 }, offset: (down * mr) as usize },
            VecPtr { operand: Operand::Chain { spec: ld.spec, part: 1 }, offset: (right * nr) as usize },
        ),
        FusedSpec::AddUnicast(st) => FusedKerSpec::AddUnicast(
            TileView {
                at: VecPtr {
                    operand: Operand::Chain { spec: ld.spec, part: 0 },
                    offset: strided(down * mr, right * nr, st.row_stride as nat, st.col_stride as nat) as usize,
                },
                row_stride: st.row_stride,
                col_stride: st.col_stride,
            },
        ),
        FusedSpec::Store(st) => FusedKerSpec::Store(
            TileView {
                at: VecPtr {
                    operand: Operand::Output,
                    offset: strided(down * mr, right * nr, st.row_stride as nat, st.col_stride as nat) as usize,
                },
                row_stride: st.row_stride,
                col_stride: st.col_stride,
            },
        ),
        FusedSpec::AddMatMul { a, b } => FusedKerSpec::AddMatMul {
            k: b.k,
            pa: memo.ptr_a,
            pb: memo.ptr_b,
        },
        _ => FusedKerSpec::Done,
    }
}

/// How the memo of a table entry moves on a tile at `(down, right)`: a
/// matmul entry now names the tile's row and column, and keeps a panel it
/// already held for that index; other entries keep their memo.
pub open spec fn memo_step<T>(s: FusedSpec<T>, old: PanelMemo, new: PanelMemo, down: usize, right: usize) -> bool {
    if s is AddMatMul {
        &&& new.panel_a_id == down
        &&& new.panel_b_id == right
        &&& old.panel_a_id == down ==> new.ptr_a == old.ptr_a
        &&& old.panel_b_id == right ==> new.ptr_b == old.ptr_b
    } else {
        new == old
    }
}

/// The item offset of `(row, col)` fits where `row < m` and `col < n` for
/// a view that passed planning.
proof fn lemma_strided_fits(row: nat, col: nat, m: nat, n: nat, rs: nat, cs: nat)
    requires
        row <= m,
        col <= n,
        m * rs + n * cs <= usize::MAX,
    ensures
        strided(row, col, rs, cs) <= usize::MAX,
        row * rs <= m * rs,
        col * cs <= n * cs,
{
    assert(row * rs <= m * rs) by (nonlinear_arith)
        requires
            row <= m,
    ;
    assert(col * cs <= n * cs) by (nonlinear_arith)
        requires
            col <= n,
    ;
}

proof fn lemma_tile_start(d: nat, mr: nat, m: nat)
    requires
        mr > 0,
        d < m / mr,
    ensures
        d * mr + mr <= m,
{
    assert((d + 1) * mr <= (m / mr) * mr) by (nonlinear_arith)
        requires
            d + 1 <= m / mr,
            mr > 0,
    ;
    vstd::arithmetic::div_mod::lemma_fundamental_div_mod(m as int, mr as int);
    assert(d * mr + mr == (d + 1) * mr) by (nonlinear_arith);
    assert((m / mr) * mr == mr * (m / mr)) by (nonlinear_arith);
}


impl<T> ScratchSpaceImpl<T> {
    /// Both spaces hold the same plan: chain, table, shapes and layout.
    pub open spec fn same_plan(&self, o: &Self) -> bool {
        &&& self.chain@ == o.chain@
        &&& self.loc_dependant@ == o.loc_dependant@
        &&& self.blob_size == o.blob_size
        &&& self.blob_align == o.blob_align
        &&& self.mr == o.mr
        &&& self.nr == o.nr
        &&& self.m == o.m
        &&& self.n == o.n
        &&& self.valid_down_tiles == o.valid_down_tiles
        &&& self.remnant_down == o.remnant_down
        &&& self.valid_right_tiles == o.valid_right_tiles
        &&& self.remnant_right == o.remnant_right
        &&& self.uspecs@.len() == o.uspecs@.len()
        &&& self.memos@.len() == o.memos@.len()
        &&& self.tiles@.len() == o.tiles@.len()
    }

    /// The program holds the full-tile form of every tile-dependent entry.
    pub open spec fn valid_tile_done(&self, specs: Seq<FusedSpec<T>>, down: usize, right: usize) -> bool {
        forall|j: int|
            0 <= j < self.loc_dependant@.len() ==> self.uspecs@[(#[trigger] self.loc_dependant@[j]).uspec as int]
                == valid_entry(
                specs[self.loc_dependant@[j].spec as int],
                self.loc_dependant@[j],
                self.memos@[j],
                down as nat,
                right as nat,
                self.mr as nat,
                self.nr as nat,
            )
    }

    /// The memos after a tile at `(down, right)`, from those of `o`.
    pub open spec fn memos_advanced(&self, o: &Self, specs: Seq<FusedSpec<T>>, down: usize, right: usize) -> bool {
        forall|j: int|
            0 <= j < self.memos@.len() ==> memo_step(
                specs[self.loc_dependant@[j].spec as int],
                o.memos@[j],
                #[trigger] self.memos@[j],
                down,
                right,
            )
    }
}

proof fn lemma_wf_facts<T>(s: ScratchSpaceImpl<T>)
    requires
        s.wf(),
    ensures
        fits_upto(s.chain@, s.chain@.len(), s.geom()),
        s.chain@.len() <= usize::MAX,
        forall|k: int| 0 <= k < s.chain@.len() ==> (#[trigger] entry_error(s.chain@[k], k as nat, s.m as nat, s.n as nat)) is None,
        ({
            let lds = s.loc_dependant@;
            let specs = s.chain@;
            let g = s.geom();
            &&& forall|j: int|
                0 <= j < lds.len() ==> {
                    &&& (#[trigger] lds[j]).spec < specs.len()
                    &&& lds[j].uspec == lds[j].spec + 1
                    &&& is_loc_dependant(specs[lds[j].spec as int])
                    &&& lds[j].region + region_len(specs[lds[j].spec as int], g.mr, g.nr) <= s.tiles@.len()
                }
            &&& forall|j: int, k: int|
                0 <= j < k < lds.len() ==> (#[trigger] lds[j]).spec < (#[trigger] lds[k]).spec
                    && lds[j].region + region_len(specs[lds[j].spec as int], g.mr, g.nr)
                    <= lds[k].region
            &&& forall|x: int|
                0 <= x < specs.len() && is_loc_dependant(#[trigger] specs[x]) ==> exists|j: int|
                    0 <= j < lds.len() && (#[trigger] lds[j]).spec == x
        }),
{
    let specs = s.chain@;
    let g = s.geom();
    assert forall|k: nat| k <= specs.len() implies #[trigger] walk(specs, k, g).offset <= usize::MAX && walk(specs, k, g).align
            <= usize::MAX && walk(specs, k, g).region <= usize::MAX by {
        assert(layout_fits(specs, g));
    }
    lemma_walk_lds(specs, specs.len(), g);
    lemma_no_error(specs, specs.len(), s.m as nat, s.n as nat);
}

proof fn lemma_shape_eq_error<T>(a: FusedSpec<T>, b: FusedSpec<T>, ix: nat, m: nat, n: nat)
    requires
        shape_eq(a, b),
    ensures
        entry_error(a, ix, m, n) == entry_error(b, ix, m, n),
        is_loc_dependant(a) == is_loc_dependant(b),
        forall|mr: nat, nr: nat| region_len(a, mr, nr) == #[trigger] region_len(b, mr, nr),
{
}

/// A source of packed panels, called on a memo miss: it makes panel
/// `index` of the operand that `source` describes available, packing it
/// into `blob` at byte offset `buffer` where the source asked for a
/// scratch buffer, and says where the panel is.
pub trait PanelProvider {
    fn panel_bytes(&self, source: &PanelSource, index: usize, buffer: Option<usize>, blob: &mut [u8]) -> PanelRef;
}

/// Moves the memo of entry `s` to the tile at `(down, right)`: for a matmul
/// entry, asks the provider for each panel whose index the memo does not
/// already hold.
fn fetch_panels<T, P: PanelProvider>(prov: &P, s: &FusedSpec<T>, ld: LocDependant, down: usize, right: usize, memo: PanelMemo, blob: &mut Vec<u8>) -> (r: PanelMemo)
    ensures
        memo_step(*s, memo, r, down, right),
{
    match s {
        FusedSpec::AddMatMul { a, b } => {
            let mut memo = memo;
            if memo.panel_a_id != down {
                memo.ptr_a = prov.panel_bytes(a, down, ld.buffer_a, blob.as_mut_slice());
                memo.panel_a_id = down;
            }
            if memo.panel_b_id != right {
                memo.ptr_b = prov.panel_bytes(b, right, ld.buffer_b, blob.as_mut_slice());
                memo.panel_b_id = right;
            }
            memo
        },
        _ => memo,
    }
}

/// The full-tile form of one tile-dependent entry, and its memo after.
fn valid_entry_exec<T: Copy>(s: &FusedSpec<T>, ld: LocDependant, down: usize, right: usize, mr: usize, nr: usize, m: usize, n: usize, memo: PanelMemo) -> (r: (FusedKerSpec<T>, PanelMemo))
    requires
        entry_error(*s, ld.spec as nat, m as nat, n as nat) is None,
        mr > 0,
        nr > 0,
        down * mr + mr <= m,
        right * nr + nr <= n,
    ensures
        r.0 == valid_entry(*s, ld, memo, down as nat, right as nat, mr as nat, nr as nat),
        r.1 == memo,
{
    proof {
        assert(down <= down * mr && right <= right * nr) by (nonlinear_arith)
            requires
                mr > 0,
                nr > 0,
        ;
    }
    match s {
        FusedSpec::BinPerRow(_, op) => (FusedKerSpec::PerRow(
            *op,
            VecPtr { operand: Operand::Chain { spec: ld.spec, part: 0 }, offset: down * mr },
        ), memo),
        FusedSpec::BinPerCol(_, op) => (FusedKerSpec::PerCol(
            *op,
            VecPtr { operand: Operand::Chain { spec: ld.spec, part: 0 }, offset: right * nr },
        ), memo),
        FusedSpec::AddRowColProducts(..) => (FusedKerSpec::AddRowColProducts(
            VecPtr { operand: Operand::Chain { spec: ld.spec, part: 0 }, offset: down * mr },
            VecPtr { operand: Operand::Chain { spec: ld.spec, part: 1 }, offset: right * nr },
        ), memo),
        FusedSpec::AddUnicast(st) => {
            proof {
                lemma_strided_fits((down * mr) as nat, (right * nr) as nat, m as nat, n as nat, st.row_stride as nat, st.col_stride as nat);
            }
            let at = down * mr * st.row_stride + right * nr * st.col_stride;
            (FusedKerSpec::AddUnicast(TileView { at: VecPtr { operand: Operand::Chain { spec: ld.spec, part: 0 }, offset: at }, row_stride: st.row_stride, col_stride: st.col_stride }), memo)
        },
        FusedSpec::Store(st) => {
            proof {
                lemma_strided_fits((down * mr) as nat, (right * nr) as nat, m as nat, n as nat, st.row_stride as nat, st.col_stride as nat);
            }
            let at = down * mr * st.row_stride + right * nr * st.col_stride;
            (FusedKerSpec::Store(TileView { at: VecPtr { operand: Operand::Output, offset: at }, row_stride: st.row_stride, col_stride: st.col_stride }), memo)
        },
        FusedSpec::AddMatMul { a, b } => (FusedKerSpec::AddMatMul { k: b.k, pa: memo.ptr_a, pb: memo.ptr_b }, memo),
        _ => (FusedKerSpec::Done, memo),
    }
}

impl<T: Copy + Default> ScratchSpaceImpl<T> {
    /// Finalises the program for the full tile at `(down, right)`: every
    /// tile-dependent entry is addressed in place, with no copy; a matmul
    /// entry fetches a panel only where its memo names another index.
    pub fn for_valid_tile<P: PanelProvider>(&mut self, prov: &P, specs: &Vec<FusedSpec<T>>, down: usize, right: usize)
        requires
            old(self).wf(),
            same_shapes(specs@, old(self).chain@),
            down < old(self).valid_down_tiles,
            right < old(self).valid_right_tiles,
        ensures
            final(self).wf(),
            final(self).same_plan(old(self)),
            final(self).tiles@ == old(self).tiles@,
            final(self).valid_tile_done(specs@, down, right),
            final(self).memos_advanced(old(self), specs@, down, right),
    {
        let ghost s0 = *self;
        proof {
            lemma_wf_facts(s0);
            lemma_tile_start(down as nat, self.mr as nat, self.m as nat);
            lemma_tile_start(right as nat, self.nr as nat, self.n as nat);
        }
        let mr = self.mr;
        let nr = self.nr;
        let mut j: usize = 0;
        while j < self.loc_dependant.len()
            invariant
                s0.wf(),
                same_shapes(specs@, s0.chain@),
                self.same_plan(&s0),
                self.tiles@ == s0.tiles@,
                mr == s0.mr,
                nr == s0.nr,
                down * mr + mr <= s0.m,
                right * nr + nr <= s0.n,
                down < s0.valid_down_tiles,
                mr > 0,
                nr > 0,
                forall|k: int| 0 <= k < s0.chain@.len() ==> (#[trigger] entry_error(s0.chain@[k], k as nat, s0.m as nat, s0.n as nat)) is None,
                forall|k: int|
                    0 <= k < s0.loc_dependant@.len() ==> (#[trigger] s0.loc_dependant@[k]).spec < s0.chain@.len()
                        && s0.loc_dependant@[k].uspec == s0.loc_dependant@[k].spec + 1,
                forall|a: int, b: int|
                    0 <= a < b < s0.loc_dependant@.len() ==> (#[trigger] s0.loc_dependant@[a]).spec < (#[trigger] s0.loc_dependant@[b]).spec,
                j <= self.loc_dependant@.len(),
                forall|k: int|
                    0 <= k < j ==> self.uspecs@[(#[trigger] self.loc_dependant@[k]).uspec as int]
                        == valid_entry(
                        specs@[self.loc_dependant@[k].spec as int],
                        self.loc_dependant@[k],
                        self.memos@[k],
                        down as nat,
                        right as nat,
                        mr as nat,
                        nr as nat,
                    ),
                forall|i: int|
                    0 <= i < self.uspecs@.len() && (forall|k: int| 0 <= k < j ==> (#[trigger] self.loc_dependant@[k]).uspec != i)
                        ==> #[trigger] self.uspecs@[i] == s0.uspecs@[i],
                forall|k: int|
                    0 <= k < j ==> memo_step(
                        specs@[self.loc_dependant@[k].spec as int],
                        s0.memos@[k],
                        #[trigger] self.memos@[k],
                        down,
                        right,
                    ),
                forall|k: int| j <= k < self.memos@.len() ==> #[trigger] self.memos@[k] == s0.memos@[k],
            decreases self.loc_dependant@.len() - j,
        {
            let ld = self.loc_dependant[j];
            proof {
                assert(self.loc_dependant@[j as int] == ld);
            }
            let s = &specs[ld.spec];
            proof {
                let k = ld.spec as int;
                assert(shape_eq(specs@[k], s0.chain@[k]));
                assert(entry_error(s0.chain@[k], k as nat, s0.m as nat, s0.n as nat) is None);
                lemma_shape_eq_error(specs@[k], s0.chain@[k], k as nat, s0.m as nat, s0.n as nat);
            }
            let memo = fetch_panels(prov, s, ld, down, right, self.memos[j], &mut self.blob);
            let (e, memo) = valid_entry_exec(s, ld, down, right, mr, nr, self.m, self.n, memo);
            self.memos.set(j, memo);
            self.uspecs.set(ld.uspec, e);
            j = j + 1;
            proof {
                assert forall|k: int| 0 <= k < j implies self.uspecs@[(#[trigger] self.loc_dependant@[k]).uspec as int]
                        == valid_entry(
                        specs@[self.loc_dependant@[k].spec as int],
                        self.loc_dependant@[k],
                        self.memos@[k],
                        down as nat,
                        right as nat,
                        mr as nat,
                        nr as nat,
                    ) by {
                    if k < j - 1 {
                        assert(self.loc_dependant@[k].spec < self.loc_dependant@[j - 1].spec);
                    }
                }
            }
        }
        proof {
            let len = s0.chain@.len() as int;
            assert forall|i: int| 0 <= i < len && !is_loc_dependant(self.chain@[i]) implies #[trigger] self.uspecs@[i + 1]
                == static_uspec(self.chain@[i]) by {
                assert forall|k: int| 0 <= k < j implies (#[trigger] self.loc_dependant@[k]).uspec != i + 1 by {}
                assert(self.uspecs@[i + 1] == s0.uspecs@[i + 1]);
            }
            assert forall|k: int| 0 <= k < j implies (#[trigger] self.loc_dependant@[k]).uspec != 0 by {}
            assert(self.uspecs@[0] == s0.uspecs@[0]);
            assert forall|k: int| 0 <= k < j implies (#[trigger] self.loc_dependant@[k]).uspec != len + 1 by {}
            assert(self.uspecs@[len + 1] == s0.uspecs@[len + 1]);
        }
    }
}


pub open spec fn scratch_ptr(at: nat) -> VecPtr {
    VecPtr { operand: Operand::Scratch, offset: at as usize }
}

pub open spec fn chain_ptr(spec: usize, part: usize, at: nat) -> VecPtr {
    VecPtr { operand: Operand::Chain { spec, part }, offset: at as usize }
}

/// The physical entry of a tile-dependent entry on a border tile whose
/// live part is `m_remnant` by `n_remnant`: a vector that does not cover
/// the tile is read from its scratch copy, views go through a tile-shaped
/// scratch accumulator, and the rest is as on a full tile.
pub open spec fn border_entry<T>(s: FusedSpec<T>, ld: LocDependant, memo: PanelMemo, down: nat, right: nat, m_remnant: nat, n_remnant: nat, mr: nat, nr: nat) -> FusedKerSpec<T> {
    match s {
        FusedSpec::BinPerRow(_, op) => FusedKerSpec::PerRow(
            op,
            if m_remnant < mr { scratch_ptr(ld.region as nat) } else { chain_ptr(ld.spec, 0, down * mr) },
        ),
        FusedSpec::BinPerCol(_, op) => FusedKerSpec::PerCol(
            op,
            if n_remnant < nr { scratch_ptr(ld.region as nat) } else { chain_ptr(ld.spec, 0, right * nr) },
        ),
        FusedSpec::AddRowColProducts(..) => FusedKerSpec::AddRowColProducts(
            if m_remnant < mr { scratch_ptr(ld.region as nat) } else { chain_ptr(ld.spec, 0, down * mr) },
            if n_remnant < nr { scratch_ptr(ld.region as nat + mr) } else { chain_ptr(ld.spec, 1, right * nr) },
        ),
        FusedSpec::AddUnicast(_) => FusedKerSpec::AddUnicast(
            TileView { at: scratch_ptr(ld.region as nat), row_stride: 1, col_stride: mr as usize },
        ),
        FusedSpec::Store(_) => FusedKerSpec::Store(
            TileView { at: scratch_ptr(ld.region as nat), row_stride: 1, col_stride: mr as usize },
        ),
        _ => valid_entry(s, ld, memo, down, right, mr, nr),
    }
}

/// What item `x` of an entry's scratch items holds after a border tile is
/// finalised, `old` where nothing is copied there: the live part of a
/// vector that does not cover the tile, and the live part of an
/// accumulated view (stored with rows contiguous, `x = r + c * mr`) where
/// it lies inside the view's items.
pub open spec fn border_value<T>(s: FusedSpec<T>, down: nat, right: nat, m_remnant: nat, n_remnant: nat, mr: nat, nr: nat, x: nat, old: T) -> T {
    match s {
        FusedSpec::BinPerRow(v, _) => if m_remnant < mr && x < m_remnant {
            v@[(down * mr + x) as int]
        } else {
            old
        },
        FusedSpec::BinPerCol(v, _) => if n_remnant < nr && x < n_remnant {
            v@[(right * nr + x) as int]
        } else {
            old
        },
        FusedSpec::AddRowColProducts(rv, cv) => if m_remnant < mr && x < m_remnant {
            rv@[(down * mr + x) as int]
        } else if n_remnant < nr && mr <= x < mr + n_remnant {
            cv@[right * nr + (x - mr)]
        } else {
            old
        },
        FusedSpec::AddUnicast(st) => {
            let idx = strided(down * mr + x % mr, right * nr + x / mr, st.row_stride as nat, st.col_stride as nat);
            if x % mr < m_remnant && x / mr < n_remnant && idx < st.data@.len() {
                st.data@[idx as int]
            } else {
                old
            }
        },
        _ => old,
    }
}

/// The item that a border tile copies into scratch item `x` of entry `s`,
/// if any.
fn border_copy<T: Copy>(s: &FusedSpec<T>, down: usize, right: usize, m_remnant: usize, n_remnant: usize, mr: usize, nr: usize, m: usize, n: usize, x: usize) -> (r: Option<T>)
    requires
        mr > 0,
        nr > 0,
        entry_error(*s, 0, m as nat, n as nat) is None,
        down * mr + m_remnant <= m,
        right * nr + n_remnant <= n,
        x < region_len(*s, mr as nat, nr as nat),
    ensures
        forall|old: T| #[trigger] border_value(*s, down as nat, right as nat, m_remnant as nat, n_remnant as nat, mr as nat, nr as nat, x as nat, old) == match r {
            Some(v) => v,
            None => old,
        },
{
    match s {
        FusedSpec::BinPerRow(v, _) => if m_remnant < mr && x < m_remnant {
            Some(v[down * mr + x])
        } else {
            None
        },
        FusedSpec::BinPerCol(v, _) => if n_remnant < nr && x < n_remnant {
            Some(v[right * nr + x])
        } else {
            None
        },
        FusedSpec::AddRowColProducts(rv, cv) => if m_remnant < mr && x < m_remnant {
            Some(rv[down * mr + x])
        } else if n_remnant < nr && mr <= x && x - mr < n_remnant {
            Some(cv[right * nr + (x - mr)])
        } else {
            None
        },
        FusedSpec::AddUnicast(st) => {
            let r = x % mr;
            let c = x / mr;
            if r < m_remnant && c < n_remnant {
                proof {
                    lemma_strided_fits((down * mr + r) as nat, (right * nr + c) as nat, m as nat, n as nat, st.row_stride as nat, st.col_stride as nat);
                }
                let idx = (down * mr + r) * st.row_stride + (right * nr + c) * st.col_stride;
                if idx < st.data.len() {
                    Some(st.data[idx])
                } else {
                    None
                }
            } else {
                None
            }
        },
        _ => None,
    }
}

/// Fills the scratch items of one entry for a border tile.
fn fill_region<T: Copy>(tiles: &mut Vec<T>, s: &FusedSpec<T>, region: usize, down: usize, right: usize, m_remnant: usize, n_remnant: usize, mr: usize, nr: usize, m: usize, n: usize)
    requires
        mr > 0,
        nr > 0,
        entry_error(*s, 0, m as nat, n as nat) is None,
        down * mr + m_remnant <= m,
        right * nr + n_remnant <= n,
        region + region_len(*s, mr as nat, nr as nat) <= old(tiles)@.len() <= usize::MAX,
    ensures
        final(tiles)@.len() == old(tiles)@.len(),
        forall|x: int| 0 <= x < region_len(*s, mr as nat, nr as nat) ==> #[trigger] final(tiles)@[region + x] == border_value(*s, down as nat, right as nat, m_remnant as nat, n_remnant as nat, mr as nat, nr as nat, x as nat, old(tiles)@[region + x]),
        forall|y: int| 0 <= y < final(tiles)@.len() && !(region <= y < region + region_len(*s, mr as nat, nr as nat)) ==> #[trigger] final(tiles)@[y] == old(tiles)@[y],
{
    let rl: usize = match s {
        FusedSpec::BinPerRow(..) => mr,
        FusedSpec::BinPerCol(..) => nr,
        FusedSpec::AddRowColProducts(..) => mr + nr,
        FusedSpec::AddUnicast(..) | FusedSpec::Store(..) => mr * nr,
        _ => 0,
    };
    let ghost t0 = tiles@;
    let mut x: usize = 0;
    while x < rl
        invariant
            rl == region_len(*s, mr as nat, nr as nat),
            region + rl <= t0.len() <= usize::MAX,
            tiles@.len() == t0.len(),
            x <= rl,
            mr > 0,
            nr > 0,
            entry_error(*s, 0, m as nat, n as nat) is None,
            down * mr + m_remnant <= m,
            right * nr + n_remnant <= n,
            forall|z: int| 0 <= z < x ==> #[trigger] tiles@[region + z] == border_value(*s, down as nat, right as nat, m_remnant as nat, n_remnant as nat, mr as nat, nr as nat, z as nat, t0[region + z]),
            forall|y: int| 0 <= y < tiles@.len() && !(region <= y < region + x) ==> #[trigger] tiles@[y] == t0[y],
        decreases rl - x,
    {
        match border_copy(s, down, right, m_remnant, n_remnant, mr, nr, m, n, x) {
            Some(v) => {
                tiles.set(region + x, v);
            },
            None => {},
        }
        proof {
            assert(border_value(*s, down as nat, right as nat, m_remnant as nat, n_remnant as nat, mr as nat, nr as nat, x as nat, t0[region + x]) == tiles@[region + x]);
        }
        x = x + 1;
        proof {
            assert forall|z: int| 0 <= z < x implies #[trigger] tiles@[region + z] == border_value(*s, down as nat, right as nat, m_remnant as nat, n_remnant as nat, mr as nat, nr as nat, z as nat, t0[region + z]) by {
                if z < x - 1 {
                    assert(tiles@[region + z] == border_value(*s, down as nat, right as nat, m_remnant as nat, n_remnant as nat, mr as nat, nr as nat, z as nat, t0[region + z]));
                }
            }
        }
    }
}


/// The border-tile form of one tile-dependent entry, and its memo after.
fn border_entry_exec<T: Copy>(s: &FusedSpec<T>, ld: LocDependant, down: usize, right: usize, m_remnant: usize, n_remnant: usize, mr: usize, nr: usize, m: usize, n: usize, memo: PanelMemo) -> (r: (FusedKerSpec<T>, PanelMemo))
    requires
        entry_error(*s, ld.spec as nat, m as nat, n as nat) is None,
        0 < m_remnant <= mr,
        0 < n_remnant <= nr,
        down * mr + m_remnant <= m,
        right * nr + n_remnant <= n,
        ld.region + region_len(*s, mr as nat, nr as nat) <= usize::MAX,
    ensures
        r.0 == border_entry(*s, ld, memo, down as nat, right as nat, m_remnant as nat, n_remnant as nat, mr as nat, nr as nat),
        r.1 == memo,
{
    proof {
        assert(down <= down * mr && right <= right * nr) by (nonlinear_arith)
            requires
                mr > 0,
                nr > 0,
        ;
    }
    let row_ptr = if m_remnant < mr {
        VecPtr { operand: Operand::Scratch, offset: ld.region }
    } else {
        VecPtr { operand: Operand::Chain { spec: ld.spec, part: 0 }, offset: down * mr }
    };
    match s {
        FusedSpec::BinPerRow(_, op) => (FusedKerSpec::PerRow(*op, row_ptr), memo),
        FusedSpec::BinPerCol(_, op) => {
            let p = if n_remnant < nr {
                VecPtr { operand: Operand::Scratch, offset: ld.region }
            } else {
                VecPtr { operand: Operand::Chain { spec: ld.spec, part: 0 }, offset: right * nr }
            };
            (FusedKerSpec::PerCol(*op, p), memo)
        },
        FusedSpec::AddRowColProducts(..) => {
            let col_ptr = if n_remnant < nr {
                VecPtr { operand: Operand::Scratch, offset: ld.region + mr }
            } else {
                VecPtr { operand: Operand::Chain { spec: ld.spec, part: 1 }, offset: right * nr }
            };
            (FusedKerSpec::AddRowColProducts(row_ptr, col_ptr), memo)
        },
        FusedSpec::AddUnicast(_) => (FusedKerSpec::AddUnicast(
            TileView { at: VecPtr { operand: Operand::Scratch, offset: ld.region }, row_stride: 1, col_stride: mr },
        ), memo),
        FusedSpec::Store(_) => (FusedKerSpec::Store(
            TileView { at: VecPtr { operand: Operand::Scratch, offset: ld.region }, row_stride: 1, col_stride: mr },
        ), memo),
        FusedSpec::AddMatMul { a, b } => (FusedKerSpec::AddMatMul { k: b.k, pa: memo.ptr_a, pb: memo.ptr_b }, memo),
        _ => (FusedKerSpec::Done, memo),
    }
}

impl<T> ScratchSpaceImpl<T> {
    /// The program holds the border-tile form of every tile-dependent entry.
    pub open spec fn border_tile_done(&self, specs: Seq<FusedSpec<T>>, down: usize, right: usize, m_remnant: usize, n_remnant: usize) -> bool {
        forall|j: int|
            0 <= j < self.loc_dependant@.len() ==> self.uspecs@[(#[trigger] self.loc_dependant@[j]).uspec as int]
                == border_entry(
                specs[self.loc_dependant@[j].spec as int],
                self.loc_dependant@[j],
                self.memos@[j],
                down as nat,
                right as nat,
                m_remnant as nat,
                n_remnant as nat,
                self.mr as nat,
                self.nr as nat,
            )
    }

    /// The scratch items after a border tile, from those of `o`: each
    /// entry's items as `border_value` says, the others kept.
    pub open spec fn border_filled(&self, o: &Self, specs: Seq<FusedSpec<T>>, down: usize, right: usize, m_remnant: usize, n_remnant: usize) -> bool {
        let lds = self.loc_dependant@;
        let mr = self.mr as nat;
        let nr = self.nr as nat;
        &&& self.tiles@.len() == o.tiles@.len()
        &&& forall|j: int, x: int|
            0 <= j < lds.len() && 0 <= x < regions_of(lds, specs, mr, nr, j).1 - lds[j].region ==> #[trigger] self.tiles@[
                lds[j].region + x] == border_value(
                specs[lds[j].spec as int],
                down as nat,
                right as nat,
                m_remnant as nat,
                n_remnant as nat,
                mr,
                nr,
                x as nat,
                o.tiles@[lds[j].region + x],
            )
        &&& forall|y: int|
            0 <= y < self.tiles@.len() && (forall|j: int| 0 <= j < lds.len() ==> !(lds[j].region <= y < #[trigger] regions_of(lds, specs, mr, nr, j).1))
                ==> #[trigger] self.tiles@[y] == o.tiles@[y]
    }
}

/// The scratch items of table entry `j`: where they start and end.
pub open spec fn regions_of<T>(lds: Seq<LocDependant>, specs: Seq<FusedSpec<T>>, mr: nat, nr: nat, j: int) -> (int, int) {
    (lds[j].region as int, lds[j].region + region_len(specs[lds[j].spec as int], mr, nr))
}

/// The table's scratch items lie inside `len` items, in table order.
pub open spec fn regions_ordered<T>(lds: Seq<LocDependant>, specs: Seq<FusedSpec<T>>, mr: nat, nr: nat, len: nat) -> bool {
    &&& forall|k: int|
        0 <= k < lds.len() ==> (#[trigger] lds[k]).spec < specs.len() && regions_of(lds, specs, mr, nr, k).1 <= len
    &&& forall|a: int, b: int|
        0 <= a < b < lds.len() ==> #[trigger] regions_of(lds, specs, mr, nr, a).1 <= #[trigger] regions_of(lds, specs, mr, nr, b).0
}

/// Fills the scratch items of every table entry for a border tile.
fn fill_regions<T: Copy>(tiles: &mut Vec<T>, lds: &Vec<LocDependant>, specs: &Vec<FusedSpec<T>>, down: usize, right: usize, m_remnant: usize, n_remnant: usize, mr: usize, nr: usize, m: usize, n: usize)
    requires
        0 < m_remnant <= mr,
        0 < n_remnant <= nr,
        down * mr + m_remnant <= m,
        right * nr + n_remnant <= n,
        old(tiles)@.len() <= usize::MAX,
        forall|k: int| 0 <= k < specs@.len() ==> (#[trigger] entry_error(specs@[k], 0, m as nat, n as nat)) is None,
        regions_ordered(lds@, specs@, mr as nat, nr as nat, old(tiles)@.len() as nat),
    ensures
        final(tiles)@.len() == old(tiles)@.len(),
        forall|j: int, x: int|
            0 <= j < lds@.len() && 0 <= x < regions_of(lds@, specs@, mr as nat, nr as nat, j).1 - lds@[j].region ==> #[trigger] final(tiles)@[
                lds@[j].region + x] == border_value(
                specs@[lds@[j].spec as int],
                down as nat,
                right as nat,
                m_remnant as nat,
                n_remnant as nat,
                mr as nat,
                nr as nat,
                x as nat,
                old(tiles)@[lds@[j].region + x],
            ),
        forall|y: int|
            0 <= y < final(tiles)@.len() && (forall|j: int| 0 <= j < lds@.len() ==> !(lds@[j].region <= y < #[trigger] regions_of(lds@, specs@, mr as nat, nr as nat, j).1))
                ==> #[trigger] final(tiles)@[y] == old(tiles)@[y],
{
    let ghost t0 = tiles@;
    let mut j: usize = 0;
    while j < lds.len()
        invariant
            0 < m_remnant <= mr,
            0 < n_remnant <= nr,
            down * mr + m_remnant <= m,
            right * nr + n_remnant <= n,
            t0.len() <= usize::MAX,
            tiles@.len() == t0.len(),
            forall|k: int| 0 <= k < specs@.len() ==> (#[trigger] entry_error(specs@[k], 0, m as nat, n as nat)) is None,
            regions_ordered(lds@, specs@, mr as nat, nr as nat, t0.len() as nat),
            j <= lds@.len(),
            forall|k: int, x: int|
                0 <= k < j && 0 <= x < regions_of(lds@, specs@, mr as nat, nr as nat, k).1 - lds@[k].region ==> #[trigger] tiles@[
                    lds@[k].region + x] == border_value(
                    specs@[lds@[k].spec as int],
                    down as nat,
                    right as nat,
                    m_remnant as nat,
                    n_remnant as nat,
                    mr as nat,
                    nr as nat,
                    x as nat,
                    t0[lds@[k].region + x],
                ),
            forall|y: int|
                0 <= y < tiles@.len() && (forall|k: int| 0 <= k < j ==> !(lds@[k].region <= y < #[trigger] regions_of(lds@, specs@, mr as nat, nr as nat, k).1))
                    ==> #[trigger] tiles@[y] == t0[y],
        decreases lds@.len() - j,
    {
        let ld = lds[j];
        proof {
            assert(lds@[j as int] == ld);
            assert(ld.spec < specs@.len());
            assert(regions_of(lds@, specs@, mr as nat, nr as nat, j as int).1 <= t0.len());
        }
        let ghost t1 = tiles@;
        fill_region(tiles, &specs[ld.spec], ld.region, down, right, m_remnant, n_remnant, mr, nr, m, n);
        j = j + 1;
        proof {
            let jj = j - 1;
            assert forall|k: int, x: int|
                0 <= k < j && 0 <= x < regions_of(lds@, specs@, mr as nat, nr as nat, k).1 - lds@[k].region implies #[trigger] tiles@[
                    lds@[k].region + x] == border_value(
                    specs@[lds@[k].spec as int],
                    down as nat,
                    right as nat,
                    m_remnant as nat,
                    n_remnant as nat,
                    mr as nat,
                    nr as nat,
                    x as nat,
                    t0[lds@[k].region + x],
                ) by {
                if k < jj {
                    assert(regions_of(lds@, specs@, mr as nat, nr as nat, k).1 <= regions_of(lds@, specs@, mr as nat, nr as nat, jj).0);
                    assert(t1[lds@[k].region + x] == tiles@[lds@[k].region + x]);
                } else {
                    assert forall|q: int| 0 <= q < jj implies !(lds@[q].region <= ld.region + x < #[trigger] regions_of(lds@, specs@, mr as nat, nr as nat, q).1) by {
                        assert(regions_of(lds@, specs@, mr as nat, nr as nat, q).1 <= regions_of(lds@, specs@, mr as nat, nr as nat, jj).0);
                    }
                    assert(t1[ld.region + x] == t0[ld.region + x]);
                }
            }
            assert forall|y: int|
                0 <= y < tiles@.len() && (forall|k: int| 0 <= k < j ==> !(lds@[k].region <= y < #[trigger] regions_of(lds@, specs@, mr as nat, nr as nat, k).1))
                    implies #[trigger] tiles@[y] == t0[y] by {
                assert(!(lds@[jj].region <= y < regions_of(lds@, specs@, mr as nat, nr as nat, jj).1));
                assert(t1[y] == t0[y]);
            }
        }
    }
}


impl<T: Copy + Default> ScratchSpaceImpl<T> {
    /// The program part of finalising a border tile.
    fn border_program<P: PanelProvider>(&mut self, prov: &P, specs: &Vec<FusedSpec<T>>, down: usize, right: usize, m_remnant: usize, n_remnant: usize)
        requires
            old(self).wf(),
            same_shapes(specs@, old(self).chain@),
            0 < m_remnant <= old(self).mr,
            0 < n_remnant <= old(self).nr,
            down * old(self).mr + m_remnant <= old(self).m,
            right * old(self).nr + n_remnant <= old(self).n,
        ensures
            final(self).wf(),
            final(self).same_plan(old(self)),
            final(self).border_tile_done(specs@, down, right, m_remnant, n_remnant),
            final(self).memos_advanced(old(self), specs@, down, right),
            final(self).tiles@ == old(self).tiles@,
    {
        let ghost s0 = *self;
        proof {
            lemma_wf_facts(s0);
            assert(s0.plan().region <= usize::MAX) by {
                assert(fits_upto(s0.chain@, s0.chain@.len(), s0.geom()));
                assert(walk(s0.chain@, s0.chain@.len(), s0.geom()).offset <= usize::MAX);
            }
        }
        let mr = self.mr;
        let nr = self.nr;
        let m = self.m;
        let n = self.n;
        let mut j: usize = 0;
        while j < self.loc_dependant.len()
            invariant
                s0.wf(),
                same_shapes(specs@, s0.chain@),
                self.same_plan(&s0),
                self.tiles@ == s0.tiles@,
                mr == s0.mr,
                nr == s0.nr,
                m == s0.m,
                n == s0.n,
                0 < m_remnant <= mr,
                0 < n_remnant <= nr,
                down * mr + m_remnant <= m,
                right * nr + n_remnant <= n,
                s0.tiles@.len() <= usize::MAX,
                forall|k: int| 0 <= k < s0.chain@.len() ==> (#[trigger] entry_error(s0.chain@[k], k as nat, s0.m as nat, s0.n as nat)) is None,
                forall|k: int|
                    0 <= k < s0.loc_dependant@.len() ==> (#[trigger] s0.loc_dependant@[k]).spec < s0.chain@.len()
                        && s0.loc_dependant@[k].uspec == s0.loc_dependant@[k].spec + 1
                        && s0.loc_dependant@[k].region + region_len(s0.chain@[s0.loc_dependant@[k].spec as int], mr as nat, nr as nat) <= s0.tiles@.len(),
                forall|a: int, b: int|
                    0 <= a < b < s0.loc_dependant@.len() ==> (#[trigger] s0.loc_dependant@[a]).spec < (#[trigger] s0.loc_dependant@[b]).spec,
                j <= self.loc_dependant@.len(),
                forall|k: int|
                    0 <= k < j ==> self.uspecs@[(#[trigger] self.loc_dependant@[k]).uspec as int]
                        == border_entry(
                        specs@[self.loc_dependant@[k].spec as int],
                        self.loc_dependant@[k],
                        self.memos@[k],
                        down as nat,
                        right as nat,
                        m_remnant as nat,
                        n_remnant as nat,
                        mr as nat,
                        nr as nat,
                    ),
                forall|i: int|
                    0 <= i < self.uspecs@.len() && (forall|k: int| 0 <= k < j ==> (#[trigger] self.loc_dependant@[k]).uspec != i)
                        ==> #[trigger] self.uspecs@[i] == s0.uspecs@[i],
                forall|k: int|
                    0 <= k < j ==> memo_step(
                        specs@[self.loc_dependant@[k].spec as int],
                        s0.memos@[k],
                        #[trigger] self.memos@[k],
                        down,
                        right,
                    ),
                forall|k: int| j <= k < self.memos@.len() ==> #[trigger] self.memos@[k] == s0.memos@[k],
            decreases self.loc_dependant@.len() - j,
        {
            let ld = self.loc_dependant[j];
            let s = &specs[ld.spec];
            proof {
                assert(self.loc_dependant@[j as int] == ld);
                let k = ld.spec as int;
                assert(shape_eq(specs@[k], s0.chain@[k]));
                assert(entry_error(s0.chain@[k], k as nat, m as nat, n as nat) is None);
                lemma_shape_eq_error(specs@[k], s0.chain@[k], k as nat, m as nat, n as nat);
                assert(region_len(specs@[k], mr as nat, nr as nat) == region_len(s0.chain@[k], mr as nat, nr as nat));
            }
            let memo = fetch_panels(prov, s, ld, down, right, self.memos[j], &mut self.blob);
            let (e, memo) = border_entry_exec(s, ld, down, right, m_remnant, n_remnant, mr, nr, m, n, memo);
            self.memos.set(j, memo);
            self.uspecs.set(ld.uspec, e);
            j = j + 1;
            proof {
                assert forall|k: int| 0 <= k < j implies self.uspecs@[(#[trigger] self.loc_dependant@[k]).uspec as int]
                        == border_entry(
                        specs@[self.loc_dependant@[k].spec as int],
                        self.loc_dependant@[k],
                        self.memos@[k],
                        down as nat,
                        right as nat,
                        m_remnant as nat,
                        n_remnant as nat,
                        mr as nat,
                        nr as nat,
                    ) by {
                    if k < j - 1 {
                        assert(self.loc_dependant@[k].spec < self.loc_dependant@[j - 1].spec);
                    }
                }
            }
        }
        proof {
            let len = s0.chain@.len() as int;
            assert forall|i: int| 0 <= i < len && !is_loc_dependant(self.chain@[i]) implies #[trigger] self.uspecs@[i + 1]
                == static_uspec(self.chain@[i]) by {
                assert forall|k: int| 0 <= k < j implies (#[trigger] self.loc_dependant@[k]).uspec != i + 1 by {}
                assert(self.uspecs@[i + 1] == s0.uspecs@[i + 1]);
            }
            assert forall|k: int| 0 <= k < j implies (#[trigger] self.loc_dependant@[k]).uspec != 0 by {}
            assert(self.uspecs@[0] == s0.uspecs@[0]);
            assert forall|k: int| 0 <= k < j implies (#[trigger] self.loc_dependant@[k]).uspec != len + 1 by {}
            assert(self.uspecs@[len + 1] == s0.uspecs@[len + 1]);
        }
    }

    /// Finalises the program for the border tile at `(down, right)` whose
    /// live part is `m_remnant` by `n_remnant`: vectors that do not cover
    /// the tile are copied into scratch, views are read into or collected
    /// in a scratch tile, and panels are fetched as on a full tile.
    pub fn for_border_tile<P: PanelProvider>(&mut self, prov: &P, specs: &Vec<FusedSpec<T>>, down: usize, right: usize, m_remnant: usize, n_remnant: usize)
        requires
            old(self).wf(),
            same_shapes(specs@, old(self).chain@),
            0 < m_remnant <= old(self).mr,
            0 < n_remnant <= old(self).nr,
            down * old(self).mr + m_remnant <= old(self).m,
            right * old(self).nr + n_remnant <= old(self).n,
        ensures
            final(self).wf(),
            final(self).same_plan(old(self)),
            final(self).border_tile_done(specs@, down, right, m_remnant, n_remnant),
            final(self).memos_advanced(old(self), specs@, down, right),
            final(self).border_filled(old(self), specs@, down, right, m_remnant, n_remnant),
    {
        self.border_program(prov, specs, down, right, m_remnant, n_remnant);
        proof {
            lemma_border_regions(*self, specs@);
            lemma_wf_facts(*self);
            assert(self.plan().region <= usize::MAX) by {
                assert(fits_upto(self.chain@, self.chain@.len(), self.geom()));
                assert(walk(self.chain@, self.chain@.len(), self.geom()).offset <= usize::MAX);
            }
        }
        let mr = self.mr;
        let nr = self.nr;
        let m = self.m;
        let n = self.n;
        fill_regions(&mut self.tiles, &self.loc_dependant, specs, down, right, m_remnant, n_remnant, mr, nr, m, n);
    }
}

/// The facts about the table that filling the scratch items needs, stated
/// over a chain of the same shapes.
proof fn lemma_border_regions<T>(s: ScratchSpaceImpl<T>, specs: Seq<FusedSpec<T>>)
    requires
        s.wf(),
        same_shapes(specs, s.chain@),
    ensures
        forall|k: int| 0 <= k < specs.len() ==> (#[trigger] entry_error(specs[k], 0, s.m as nat, s.n as nat)) is None,
        regions_ordered(s.loc_dependant@, specs, s.mr as nat, s.nr as nat, s.tiles@.len() as nat),
{
    lemma_wf_facts(s);
    let lds = s.loc_dependant@;
    assert forall|k: int| 0 <= k < specs.len() implies (#[trigger] entry_error(specs[k], 0, s.m as nat, s.n as nat)) is None by {
        assert(shape_eq(specs[k], s.chain@[k]));
        assert(entry_error(s.chain@[k], k as nat, s.m as nat, s.n as nat) is None);
        lemma_shape_eq_error(specs[k], s.chain@[k], 0, s.m as nat, s.n as nat);
        lemma_shape_eq_error(specs[k], s.chain@[k], k as nat, s.m as nat, s.n as nat);
    }
    assert forall|k: int| 0 <= k < lds.len() implies region_len(specs[lds[k].spec as int], s.mr as nat, s.nr as nat) == region_len(s.chain@[(#[trigger] lds[k]).spec as int], s.mr as nat, s.nr as nat) by {
        assert(shape_eq(specs[lds[k].spec as int], s.chain@[lds[k].spec as int]));
        lemma_shape_eq_error(specs[lds[k].spec as int], s.chain@[lds[k].spec as int], 0, s.m as nat, s.n as nat);
    }
    assert forall|a: int, b: int|
        0 <= a < b < lds.len() implies #[trigger] regions_of(lds, specs, s.mr as nat, s.nr as nat, a).1 <= #[trigger] regions_of(lds, specs, s.mr as nat, s.nr as nat, b).0 by {
        assert(lds[a].spec < lds[b].spec);
    }
}


/// Where scratch item `x` of a tile-shaped accumulator lands in the output
/// buffer, for the tile at `(down, right)`.
pub open spec fn store_index(st: StoreView, down: nat, right: nat, mr: nat, nr: nat, x: nat) -> nat {
    strided(down * mr + x % mr, right * nr + x / mr, st.row_stride as nat, st.col_stride as nat)
}

/// Scratch item `x` is in the live part of the tile and lands inside `c`.
pub open spec fn store_live<T>(c: Seq<T>, st: StoreView, down: nat, right: nat, m_remnant: nat, n_remnant: nat, mr: nat, nr: nat, x: nat) -> bool {
    x % mr < m_remnant && x / mr < n_remnant && store_index(st, down, right, mr, nr, x) < c.len()
}

/// The output buffer after the first `count` items of the accumulator at
/// `region` are copied back, in item order; items outside the live part,
/// or landing outside the buffer, are skipped.
pub open spec fn set_from_tile<T>(c: Seq<T>, tile: Seq<T>, region: nat, st: StoreView, down: nat, right: nat, m_remnant: nat, n_remnant: nat, mr: nat, nr: nat, count: nat) -> Seq<T>
    decreases count,
{
    if count == 0 {
        c
    } else {
        let prev = set_from_tile(c, tile, region, st, down, right, m_remnant, n_remnant, mr, nr, (count - 1) as nat);
        let x = (count - 1) as nat;
        if store_live(prev, st, down, right, m_remnant, n_remnant, mr, nr, x) {
            prev.update(store_index(st, down, right, mr, nr, x) as int, tile[(region + x) as int])
        } else {
            prev
        }
    }
}

/// The output buffer after every store of the first `count` table entries
/// has copied its accumulator back.
pub open spec fn postprocessed<T>(c: Seq<T>, tile: Seq<T>, lds: Seq<LocDependant>, specs: Seq<FusedSpec<T>>, down: nat, right: nat, m_remnant: nat, n_remnant: nat, mr: nat, nr: nat, count: nat) -> Seq<T>
    decreases count,
{
    if count == 0 {
        c
    } else {
        let prev = postprocessed(c, tile, lds, specs, down, right, m_remnant, n_remnant, mr, nr, (count - 1) as nat);
        let ld = lds[count - 1];
        match specs[ld.spec as int] {
            FusedSpec::Store(st) => set_from_tile(prev, tile, ld.region as nat, st, down, right, m_remnant, n_remnant, mr, nr, mr * nr),
            _ => prev,
        }
    }
}

proof fn lemma_set_from_tile_len<T>(c: Seq<T>, tile: Seq<T>, region: nat, st: StoreView, down: nat, right: nat, m_remnant: nat, n_remnant: nat, mr: nat, nr: nat, count: nat)
    ensures
        set_from_tile(c, tile, region, st, down, right, m_remnant, n_remnant, mr, nr, count).len() == c.len(),
    decreases count,
{
    if count > 0 {
        lemma_set_from_tile_len(c, tile, region, st, down, right, m_remnant, n_remnant, mr, nr, (count - 1) as nat);
    }
}

/// Copies the live part of one scratch accumulator back to the output.
fn copy_back<T: Copy>(c: &mut Vec<T>, tiles: &Vec<T>, region: usize, st: StoreView, down: usize, right: usize, m_remnant: usize, n_remnant: usize, mr: usize, nr: usize, m: usize, n: usize)
    requires
        0 < m_remnant <= mr,
        0 < n_remnant <= nr,
        down * mr + m_remnant <= m,
        right * nr + n_remnant <= n,
        m * st.row_stride + n * st.col_stride <= usize::MAX,
        region + mr * nr <= tiles@.len() <= usize::MAX,
    ensures
        final(c)@ == set_from_tile(old(c)@, tiles@, region as nat, st, down as nat, right as nat, m_remnant as nat, n_remnant as nat, mr as nat, nr as nat, (mr * nr) as nat),
{
    let ghost c0 = c@;
    let total = mr * nr;
    let mut x: usize = 0;
    while x < total
        invariant
            total == mr * nr,
            x <= total,
            0 < m_remnant <= mr,
            0 < n_remnant <= nr,
            down * mr + m_remnant <= m,
            right * nr + n_remnant <= n,
            m * st.row_stride + n * st.col_stride <= usize::MAX,
            region + total <= tiles@.len() <= usize::MAX,
            c@ == set_from_tile(c0, tiles@, region as nat, st, down as nat, right as nat, m_remnant as nat, n_remnant as nat, mr as nat, nr as nat, x as nat),
        decreases total - x,
    {
        let r = x % mr;
        let col = x / mr;
        if r < m_remnant && col < n_remnant {
            proof {
                lemma_strided_fits((down * mr + r) as nat, (right * nr + col) as nat, m as nat, n as nat, st.row_stride as nat, st.col_stride as nat);
            }
            let idx = (down * mr + r) * st.row_stride + (right * nr + col) * st.col_stride;
            if idx < c.len() {
                c.set(idx, tiles[region + x]);
            }
        }
        x = x + 1;
    }
}

impl<T: Copy + Default> ScratchSpaceImpl<T> {
    /// Copies the live part of each store's scratch accumulator, after the
    /// kernel ran on a border tile, to the output buffer `c`; nothing else
    /// of `c` is written.
    pub fn postprocess_tile(&self, specs: &Vec<FusedSpec<T>>, c: &mut Vec<T>, down: usize, right: usize, m_remnant: usize, n_remnant: usize)
        requires
            self.wf(),
            same_shapes(specs@, self.chain@),
            0 < m_remnant <= self.mr,
            0 < n_remnant <= self.nr,
            down * self.mr + m_remnant <= self.m,
            right * self.nr + n_remnant <= self.n,
        ensures
            final(c)@ == postprocessed(old(c)@, self.tiles@, self.loc_dependant@, specs@, down as nat, right as nat, m_remnant as nat, n_remnant as nat, self.mr as nat, self.nr as nat, self.loc_dependant@.len()),
    {
        proof {
            lemma_wf_facts(*self);
            lemma_border_regions(*self, specs@);
            assert(self.plan().region <= usize::MAX) by {
                assert(fits_upto(self.chain@, self.chain@.len(), self.geom()));
                assert(walk(self.chain@, self.chain@.len(), self.geom()).offset <= usize::MAX);
            }
        }
        let mut j: usize = 0;
        while j < self.loc_dependant.len()
            invariant
                self.wf(),
                j <= self.loc_dependant@.len(),
                0 < m_remnant <= self.mr,
                0 < n_remnant <= self.nr,
                down * self.mr + m_remnant <= self.m,
                right * self.nr + n_remnant <= self.n,
                self.tiles@.len() <= usize::MAX,
                forall|k: int| 0 <= k < specs@.len() ==> (#[trigger] entry_error(specs@[k], 0, self.m as nat, self.n as nat)) is None,
                regions_ordered(self.loc_dependant@, specs@, self.mr as nat, self.nr as nat, self.tiles@.len() as nat),
                c@ == postprocessed(old(c)@, self.tiles@, self.loc_dependant@, specs@, down as nat, right as nat, m_remnant as nat, n_remnant as nat, self.mr as nat, self.nr as nat, j as nat),
            decreases self.loc_dependant@.len() - j,
        {
            let ld = self.loc_dependant[j];
            proof {
                assert(self.loc_dependant@[j as int] == ld);
                assert(ld.spec < specs@.len());
                assert(entry_error(specs@[ld.spec as int], 0, self.m as nat, self.n as nat) is None);
                assert(regions_of(self.loc_dependant@, specs@, self.mr as nat, self.nr as nat, j as int).1 <= self.tiles@.len());
            }
            match &specs[ld.spec] {
                FusedSpec::Store(st) => {
                    copy_back(c, &self.tiles, ld.region, *st, down, right, m_remnant, n_remnant, self.mr, self.nr, self.m, self.n);
                },
                _ => {},
            }
            j = j + 1;
        }
    }
}

/// The output buffer, `len` items long, holds every item of an `m` by `n`
/// output through entry `s`'s view, where `s` is a store.
pub open spec fn store_fits<T>(s: FusedSpec<T>, m: nat, n: nat, len: nat) -> bool {
    match s {
        FusedSpec::Store(st) => m == 0 || n == 0 || strided((m - 1) as nat, (n - 1) as nat, st.row_stride as nat, st.col_stride as nat) < len,
        _ => true,
    }
}

/// The first of the first `i` entries whose store view the output buffer
/// does not hold.
pub open spec fn first_unfit<T>(specs: Seq<FusedSpec<T>>, i: nat, m: nat, n: nat, len: nat) -> Option<usize>
    decreases i,
{
    if i == 0 {
        None
    } else {
        match first_unfit(specs, (i - 1) as nat, m, n, len) {
            Some(k) => Some(k),
            None => if store_fits(specs[i - 1], m, n, len) { None } else { Some((i - 1) as usize) },
        }
    }
}

proof fn lemma_first_unfit_sticks<T>(specs: Seq<FusedSpec<T>>, i: nat, k: nat, m: nat, n: nat, len: nat)
    requires
        i <= k <= specs.len(),
        first_unfit(specs, i, m, n, len) is Some,
    ensures
        first_unfit(specs, k, m, n, len) == first_unfit(specs, i, m, n, len),
    decreases k - i,
{
    if k > i {
        lemma_first_unfit_sticks(specs, i, (k - 1) as nat, m, n, len);
    }
}

/// What a kernel call comes to: a non-zero status is reported as it is,
/// then a change in the length of the scratch items; else success.
pub open spec fn kernel_outcome(status: isize, before: nat, after: nat) -> Result<(), ScratchError> {
    if status != 0 {
        Err(ScratchError::Kernel(status))
    } else if before != after {
        Err(ScratchError::KernelContract)
    } else {
        Ok(())
    }
}

/// Judges a kernel call from its status and the scratch lengths before and
/// after it.
pub fn check_kernel(status: isize, before: usize, after: usize) -> (r: Result<(), ScratchError>)
    ensures
        r == kernel_outcome(status, before as nat, after as nat),
{
    if status != 0 {
        Err(ScratchError::Kernel(status))
    } else if before != after {
        Err(ScratchError::KernelContract)
    } else {
        Ok(())
    }
}

/// A microkernel: runs a physical program on one tile. It reads the chain's
/// vectors, reads and writes the scratch items, and writes the output
/// buffer `c`; it returns 0 on success.
pub trait MatMatMulKer<T> {
    fn kernel(&self, program: &Vec<FusedKerSpec<T>>, specs: &Vec<FusedSpec<T>>, scratch: &mut Vec<T>, c: &mut Vec<T>) -> isize;
}

impl<T> ScratchSpaceImpl<T> {
    /// Number of tile rows: full ones, and one more for a remnant.
    pub open spec fn tiles_down(&self) -> nat {
        self.valid_down_tiles as nat + if self.remnant_down > 0 { 1nat } else { 0nat }
    }

    /// Number of tile columns: full ones, and one more for a remnant.
    pub open spec fn tiles_right(&self) -> nat {
        self.valid_right_tiles as nat + if self.remnant_right > 0 { 1nat } else { 0nat }
    }

    /// The live rows of tile row `down`.
    pub open spec fn live_rows(&self, down: nat) -> nat {
        if down < self.valid_down_tiles { self.mr as nat } else { self.remnant_down as nat }
    }

    /// The live columns of tile column `right`.
    pub open spec fn live_cols(&self, right: nat) -> nat {
        if right < self.valid_right_tiles { self.nr as nat } else { self.remnant_right as nat }
    }
}

impl<T: Copy + Default> ScratchSpaceImpl<T> {
    /// The program holds the finalised form of tile `(down, right)`: the
    /// full-tile form inside the full grid, else the border form with the
    /// tile's live extents.
    pub open spec fn tile_done(&self, specs: Seq<FusedSpec<T>>, down: usize, right: usize) -> bool {
        if down < self.valid_down_tiles && right < self.valid_right_tiles {
            self.valid_tile_done(specs, down, right)
        } else {
            self.border_tile_done(specs, down, right, self.live_rows(down as nat) as usize, self.live_cols(right as nat) as usize)
        }
    }

    /// Runs the tile at `(down, right)`: finalises the program for a full
    /// or a border tile, calls the kernel, and for a border tile copies the
    /// live part of the stores back to `c`; a full tile's stores are written
    /// in place by the kernel, with no copy-back. The kernel's status and
    /// the scratch length it leaves are judged by `check_kernel`.
    pub fn run<K: MatMatMulKer<T>, P: PanelProvider>(&mut self, ker: &K, prov: &P, specs: &Vec<FusedSpec<T>>, c: &mut Vec<T>, down: usize, right: usize) -> (r: Result<(), ScratchError>)
        requires
            old(self).wf(),
            same_shapes(specs@, old(self).chain@),
            down < old(self).tiles_down(),
            right < old(self).tiles_right(),
        ensures
            r is Ok ==> final(self).wf() && final(self).same_plan(old(self)) && final(self).tile_done(specs@, down, right),
            final(self).chain@ == old(self).chain@,
            final(self).loc_dependant@ == old(self).loc_dependant@,
            final(self).memos_advanced(old(self), specs@, down, right),
            down < old(self).valid_down_tiles && right < old(self).valid_right_tiles ==> final(self).valid_tile_done(specs@, down, right),
            !(down < old(self).valid_down_tiles && right < old(self).valid_right_tiles) ==> final(self).border_tile_done(specs@, down, right, old(self).live_rows(down as nat) as usize, old(self).live_cols(right as nat) as usize),
            exists|status: isize| #[trigger] kernel_outcome(status, old(self).tiles@.len(), final(self).tiles@.len()) == r,
            r is Ok && !(down < old(self).valid_down_tiles && right < old(self).valid_right_tiles) ==> exists|ck: Seq<T>|
                final(c)@ == #[trigger] postprocessed(ck, final(self).tiles@, final(self).loc_dependant@, specs@, down as nat, right as nat, old(self).live_rows(down as nat), old(self).live_cols(right as nat), old(self).mr as nat, old(self).nr as nat, old(self).loc_dependant@.len()),
    {
        proof {
            vstd::arithmetic::div_mod::lemma_fundamental_div_mod(self.m as int, self.mr as int);
            vstd::arithmetic::div_mod::lemma_fundamental_div_mod(self.n as int, self.nr as int);
            assert(self.mr * (self.m / self.mr) == (self.m / self.mr) * self.mr) by (nonlinear_arith);
            assert(self.nr * (self.n / self.nr) == (self.n / self.nr) * self.nr) by (nonlinear_arith);
        }
        let len = self.tiles.len();
        if down < self.valid_down_tiles && right < self.valid_right_tiles {
            proof {
                lemma_tile_start(down as nat, self.mr as nat, self.m as nat);
                lemma_tile_start(right as nat, self.nr as nat, self.n as nat);
            }
            self.for_valid_tile(prov, specs, down, right);
            let status = ker.kernel(&self.uspecs, specs, &mut self.tiles, c);
            check_kernel(status, len, self.tiles.len())
        } else {
            let m_remnant = if down < self.valid_down_tiles { self.mr } else { self.remnant_down };
            let n_remnant = if right < self.valid_right_tiles { self.nr } else { self.remnant_right };
            proof {
                if down < self.valid_down_tiles {
                    lemma_tile_start(down as nat, self.mr as nat, self.m as nat);
                } else {
                    assert(down == self.valid_down_tiles);
                    vstd::arithmetic::div_mod::lemma_mod_bound(self.m as int, self.mr as int);
                }
                if right < self.valid_right_tiles {
                    lemma_tile_start(right as nat, self.nr as nat, self.n as nat);
                } else {
                    assert(right == self.valid_right_tiles);
                    vstd::arithmetic::div_mod::lemma_mod_bound(self.n as int, self.nr as int);
                }
            }
            self.for_border_tile(prov, specs, down, right, m_remnant, n_remnant);
            let status = ker.kernel(&self.uspecs, specs, &mut self.tiles, c);
            let outcome = check_kernel(status, len, self.tiles.len());
            if outcome.is_ok() {
                let ghost ck = c@;
                self.postprocess_tile(specs, c, down, right, m_remnant, n_remnant);
                assert(c@ == postprocessed(ck, self.tiles@, self.loc_dependant@, specs@, down as nat, right as nat, m_remnant as nat, n_remnant as nat, self.mr as nat, self.nr as nat, self.loc_dependant@.len()));
            }
            outcome
        }
    }

    /// Runs a whole matrix product: plans `specs` for an `m` by `n` output
    /// cut in `mr` by `nr` tiles, then runs every tile, row by row. Fails
    /// as `prepare` does on a bad chain, or with `BadShape` on the first
    /// store whose view `c` does not hold, before any kernel call; stops
    /// at the first kernel fault; an empty output needs no kernel call and
    /// succeeds. After success the space holds the last tile's program.
    #[verifier::spinoff_prover]
    pub fn execute<K: MatMatMulKer<T>, P: PanelProvider>(&mut self, ker: &K, prov: &P, mr: usize, nr: usize, m: usize, n: usize, specs: &Vec<FusedSpec<T>>, c: &mut Vec<T>) -> (r: Result<(), ScratchError>)
        requires
            mr > 0,
            nr > 0,
        ensures
            first_error(specs@, specs@.len(), m as nat, n as nat) matches Some(e) ==> r == Err::<(), ScratchError>(e),
            first_error(specs@, specs@.len(), m as nat, n as nat) is None && !layout_fits(specs@, geometry::<T>(mr as nat, nr as nat)) ==> r == Err::<(), ScratchError>(ScratchError::LayoutOverflow),
            first_error(specs@, specs@.len(), m as nat, n as nat) is None && layout_fits(specs@, geometry::<T>(mr as nat, nr as nat)) ==> match first_unfit(specs@, specs@.len(), m as nat, n as nat, old(c)@.len()) {
                Some(k) => r == Err::<(), ScratchError>(ScratchError::BadShape(k)),
                None => r is Ok || (r matches Err(e) && (e is Kernel || e is KernelContract)),
            },
            first_error(specs@, specs@.len(), m as nat, n as nat) is None && layout_fits(specs@, geometry::<T>(mr as nat, nr as nat)) && first_unfit(specs@, specs@.len(), m as nat, n as nat, old(c)@.len()) is None && (m == 0 || n == 0) ==> r is Ok,
            r is Ok ==> final(self).wf() && final(self).chain@ == specs@ && final(self).m == m && final(self).n == n && final(self).mr == mr && final(self).nr == nr,
            r is Ok && final(self).tiles_down() > 0 && final(self).tiles_right() > 0 ==> final(self).tile_done(specs@, (final(self).tiles_down() - 1) as usize, (final(self).tiles_right() - 1) as usize),
    {
        match self.prepare(mr, nr, m, n, specs) {
            Err(e) => return Err(e),
            Ok(()) => {},
        }
        proof {
            assert(first_error(specs@, specs@.len(), m as nat, n as nat) is None);
            assert(layout_fits(specs@, geometry::<T>(mr as nat, nr as nat)));
            lemma_wf_facts(*self);
        }
        let len = specs.len();
        let mut i: usize = 0;
        while i < len
            invariant
                len == specs@.len(),
                i <= len,
                c@.len() == old(c)@.len(),
                first_error(specs@, specs@.len(), m as nat, n as nat) is None,
                layout_fits(specs@, geometry::<T>(mr as nat, nr as nat)),
                first_unfit(specs@, i as nat, m as nat, n as nat, c@.len()) is None,
                forall|k: int| 0 <= k < specs@.len() ==> (#[trigger] entry_error(specs@[k], k as nat, m as nat, n as nat)) is None,
            decreases len - i,
        {
            proof {
                let k = i as int;
                assert(entry_error(specs@[k], k as nat, m as nat, n as nat) is None);
            }
            if let FusedSpec::Store(st) = &specs[i] {
                if m > 0 && n > 0 {
                    proof {
                        lemma_strided_fits((m - 1) as nat, (n - 1) as nat, m as nat, n as nat, st.row_stride as nat, st.col_stride as nat);
                    }
                    let last = (m - 1) * st.row_stride + (n - 1) * st.col_stride;
                    if last >= c.len() {
                        proof {
                            lemma_first_unfit_sticks(specs@, (i + 1) as nat, len as nat, m as nat, n as nat, c@.len());
                        }
                        return Err(ScratchError::BadShape(i));
                    }
                }
            }
            i = i + 1;
        }
        proof {
            vstd::arithmetic::div_mod::lemma_fundamental_div_mod(self.m as int, self.mr as int);
            vstd::arithmetic::div_mod::lemma_fundamental_div_mod(self.n as int, self.nr as int);
            let (mm, mmr, q) = (self.m as int, self.mr as int, self.valid_down_tiles as int);
            assert(q <= mmr * q) by (nonlinear_arith)
                requires mmr >= 1, q >= 0;
            let (nn, nnr, p) = (self.n as int, self.nr as int, self.valid_right_tiles as int);
            assert(p <= nnr * p) by (nonlinear_arith)
                requires nnr >= 1, p >= 0;
            if m == 0 {
                vstd::arithmetic::div_mod::lemma_small_mod(0, self.mr as nat);
                vstd::arithmetic::div_mod::lemma_basic_div(0, self.mr as int);
                assert(self.valid_down_tiles == 0 && self.remnant_down == 0);
            }
            if n == 0 {
                vstd::arithmetic::div_mod::lemma_small_mod(0, self.nr as nat);
                vstd::arithmetic::div_mod::lemma_basic_div(0, self.nr as int);
                assert(self.valid_right_tiles == 0 && self.remnant_right == 0);
            }
        }
        let downs = if self.remnant_down > 0 { self.valid_down_tiles + 1 } else { self.valid_down_tiles };
        let rights = if self.remnant_right > 0 { self.valid_right_tiles + 1 } else { self.valid_right_tiles };
        let ghost s0 = *self;
        let mut down: usize = 0;
        while down < downs
            invariant
                self.wf(),
                self.chain@ == specs@,
                self.same_plan(&s0),
                self.m == m,
                self.n == n,
                self.mr == mr,
                self.nr == nr,
                downs == self.tiles_down(),
                rights == self.tiles_right(),
                m == 0 ==> downs == 0,
                n == 0 ==> rights == 0,
                down <= downs,
                first_error(specs@, specs@.len(), m as nat, n as nat) is None,
                layout_fits(specs@, geometry::<T>(mr as nat, nr as nat)),
                first_unfit(specs@, specs@.len(), m as nat, n as nat, old(c)@.len()) is None,
                down > 0 && rights > 0 ==> self.tile_done(specs@, (down - 1) as usize, (rights - 1) as usize),
            decreases downs - down,
        {
            let mut right: usize = 0;
            while right < rights
                invariant
                    self.wf(),
                    self.chain@ == specs@,
                    self.same_plan(&s0),
                    self.m == m,
                    self.n == n,
                    self.mr == mr,
                    self.nr == nr,
                    down < downs,
                    downs == self.tiles_down(),
                    rights == self.tiles_right(),
                    m == 0 ==> downs == 0,
                    n == 0 ==> rights == 0,
                    right <= rights,
                    first_error(specs@, specs@.len(), m as nat, n as nat) is None,
                    layout_fits(specs@, geometry::<T>(mr as nat, nr as nat)),
                    first_unfit(specs@, specs@.len(), m as nat, n as nat, old(c)@.len()) is None,
                    right > 0 ==> self.tile_done(specs@, down, (right - 1) as usize),
                decreases rights - right,
            {
                proof {
                    assert(same_shapes(specs@, self.chain@));
                    assert(downs > 0 && rights > 0);
                    assert(m != 0 && n != 0);
                }
                match self.run(ker, prov, specs, c, down, right) {
                    Err(e) => return Err(e),
                    Ok(()) => {},
                }
                right = right + 1;
            }
            down = down + 1;
        }
        Ok(())
    }

    /// The program as finalised for the last tile.
    pub fn uspecs(&self) -> (r: &Vec<FusedKerSpec<T>>)
        ensures
            r@ == self.uspecs@,
    {
        &self.uspecs
    }
}


/// Every slot of two programs of one plan that both hold the finalised form
/// of every tile-dependent entry, given by `f`, is the same.
proof fn lemma_programs_equal<T>(a: ScratchSpaceImpl<T>, b: ScratchSpaceImpl<T>)
    requires
        a.wf(),
        b.wf(),
        a.same_plan(&b),
        forall|j: int|
            0 <= j < a.loc_dependant@.len() ==> a.uspecs@[(#[trigger] a.loc_dependant@[j]).uspec as int]
                == b.uspecs@[a.loc_dependant@[j].uspec as int],
    ensures
        a.uspecs@ == b.uspecs@,
{
    lemma_wf_facts(a);
    let len = a.chain@.len() as int;
    assert forall|i: int| 0 <= i < a.uspecs@.len() implies a.uspecs@[i] == b.uspecs@[i] by {
        if 1 <= i <= len {
            let x = i - 1;
            if is_loc_dependant(a.chain@[x]) {
                let j = choose|j: int| 0 <= j < a.loc_dependant@.len() && (#[trigger] a.loc_dependant@[j]).spec == x;
                assert(a.loc_dependant@[j].uspec == i);
            } else {
                assert(a.uspecs@[x + 1] == static_uspec(a.chain@[x]));
                assert(b.uspecs@[x + 1] == static_uspec(b.chain@[x]));
            }
        }
    }
    assert(a.uspecs@ =~= b.uspecs@);
}

/// Finalising a full tile is deterministic: two spaces holding one plan
/// and the same panel memos, each finalised for the same tile of the same
/// chain, hold the same program (a repeated tile keeps its memos, see
/// `lemma_memo_names_last_tile`).
pub proof fn lemma_valid_tile_deterministic<T>(a: ScratchSpaceImpl<T>, b: ScratchSpaceImpl<T>, specs: Seq<FusedSpec<T>>, down: usize, right: usize)
    requires
        a.wf(),
        b.wf(),
        a.same_plan(&b),
        a.memos@ == b.memos@,
        a.valid_tile_done(specs, down, right),
        b.valid_tile_done(specs, down, right),
    ensures
        a.uspecs@ == b.uspecs@,
{
    assert forall|j: int|
        0 <= j < a.loc_dependant@.len() implies a.uspecs@[(#[trigger] a.loc_dependant@[j]).uspec as int]
            == b.uspecs@[a.loc_dependant@[j].uspec as int] by {
        assert(b.loc_dependant@[j] == a.loc_dependant@[j]);
    }
    lemma_programs_equal(a, b);
}

/// Finalising a border tile is deterministic: two spaces holding one plan
/// and the same panel memos, each finalised for the same border tile of
/// the same chain, hold the same program.
pub proof fn lemma_border_tile_deterministic<T>(a: ScratchSpaceImpl<T>, b: ScratchSpaceImpl<T>, specs: Seq<FusedSpec<T>>, down: usize, right: usize, m_remnant: usize, n_remnant: usize)
    requires
        a.wf(),
        b.wf(),
        a.same_plan(&b),
        a.memos@ == b.memos@,
        a.border_tile_done(specs, down, right, m_remnant, n_remnant),
        b.border_tile_done(specs, down, right, m_remnant, n_remnant),
    ensures
        a.uspecs@ == b.uspecs@,
{
    assert forall|j: int|
        0 <= j < a.loc_dependant@.len() implies a.uspecs@[(#[trigger] a.loc_dependant@[j]).uspec as int]
            == b.uspecs@[a.loc_dependant@[j].uspec as int] by {
        assert(b.loc_dependant@[j] == a.loc_dependant@[j]);
    }
    lemma_programs_equal(a, b);
}

/// The tile indices that a matmul memo names before the `i`-th tile of a
/// sweep that starts from `start`: each tile leaves its own indices there.
pub open spec fn sweep_ids(start: (usize, usize), tiles: Seq<(usize, usize)>, i: nat) -> (usize, usize) {
    if i == 0 {
        start
    } else {
        tiles[i - 1]
    }
}

/// The `i`-th tile of a sweep asks the first panel source for a panel.
pub open spec fn fetches_a(start: (usize, usize), tiles: Seq<(usize, usize)>, i: nat) -> bool {
    sweep_ids(start, tiles, i).0 != tiles[i as int].0
}

/// The `i`-th tile of a sweep asks the second panel source for a panel.
pub open spec fn fetches_b(start: (usize, usize), tiles: Seq<(usize, usize)>, i: nat) -> bool {
    sweep_ids(start, tiles, i).1 != tiles[i as int].1
}

/// Visits to each value are consecutive.
pub open spec fn grouped(ids: Seq<usize>) -> bool {
    forall|a: int, b: int, c: int| 0 <= a < b < c < ids.len() && #[trigger] ids[a] == #[trigger] ids[c] ==> #[trigger] ids[b] == ids[a]
}

/// The memo of a matmul entry after a finalised tile names that tile, so
/// `sweep_ids` is what the memo holds along a sweep; a repeated tile finds
/// both panels in the memo and keeps it as it is.
pub proof fn lemma_memo_names_last_tile<T>(s: FusedSpec<T>, old: PanelMemo, new: PanelMemo, down: usize, right: usize)
    requires
        s is AddMatMul,
        memo_step(s, old, new, down, right),
    ensures
        (new.panel_a_id, new.panel_b_id) == (down, right),
        old.panel_a_id == down && old.panel_b_id == right ==> new == old,
{
}

/// Panel memoisation: along a sweep whose tiles of one row index are
/// visited one after another, the first panel source is asked at most once
/// for each row index; likewise the second for each column index where the
/// tiles of one column index are visited one after another.
pub proof fn lemma_panel_fetched_once(start: (usize, usize), tiles: Seq<(usize, usize)>, i: nat, k: nat)
    requires
        i < k < tiles.len(),
    ensures
        grouped(tiles.map_values(|t: (usize, usize)| t.0)) && tiles[i as int].0 == tiles[k as int].0 ==> !(fetches_a(start, tiles, i) && fetches_a(start, tiles, k)),
        grouped(tiles.map_values(|t: (usize, usize)| t.1)) && tiles[i as int].1 == tiles[k as int].1 ==> !(fetches_b(start, tiles, i) && fetches_b(start, tiles, k)),
{
    let downs = tiles.map_values(|t: (usize, usize)| t.0);
    let rights = tiles.map_values(|t: (usize, usize)| t.1);
    assert(downs[i as int] == tiles[i as int].0 && downs[k as int] == tiles[k as int].0 && downs[k - 1] == tiles[k - 1].0);
    assert(rights[i as int] == tiles[i as int].1 && rights[k as int] == tiles[k as int].1 && rights[k - 1] == tiles[k - 1].1);
    if grouped(downs) && tiles[i as int].0 == tiles[k as int].0 && i < k - 1 {
        assert(downs[k - 1] == downs[i as int]);
    }
    if grouped(rights) && tiles[i as int].1 == tiles[k as int].1 && i < k - 1 {
        assert(rights[k - 1] == rights[i as int]);
    }
}

/// The first tile of a sweep from reset memos fetches both panels.
pub proof fn lemma_first_tile_fetches(tiles: Seq<(usize, usize)>)
    requires
        tiles.len() > 0,
        tiles[0].0 < usize::MAX,
        tiles[0].1 < usize::MAX,
    ensures
        fetches_a((usize::MAX, usize::MAX), tiles, 0),
        fetches_b((usize::MAX, usize::MAX), tiles, 0),
{
}

/// Entry `s` is placed aligned in a layout of alignment `align`: its
/// record or copy area at `ld.loc` starts at a multiple of its type's
/// alignment, the buffers its panel sources asked for start at multiples
/// of their alignments, and all these alignments divide `align`.
pub open spec fn buffers_aligned<T>(s: FusedSpec<T>, ld: LocDependant, g: Geometry, align: nat) -> bool {
    match s {
        FusedSpec::AddMatMul { a, b } => {
            &&& divides(g.memo_align, ld.loc as nat) && divides(g.memo_align, align)
            &&& (a.scratch_layout matches Some(l) ==> ld.buffer_a matches Some(off) && divides(
                l.align as nat,
                off as nat,
            ) && divides(l.align as nat, align))
            &&& (b.scratch_layout matches Some(l) ==> ld.buffer_b matches Some(off) && divides(
                l.align as nat,
                off as nat,
            ) && divides(l.align as nat, align))
        },
        _ => divides(g.item_align, ld.loc as nat) && divides(g.item_align, align),
    }
}

proof fn lemma_buffers_aligned_grow<T>(s: FusedSpec<T>, ld: LocDependant, g: Geometry, align: nat, bigger: nat)
    requires
        buffers_aligned(s, ld, g, align),
        divides(align, bigger),
    ensures
        buffers_aligned(s, ld, g, bigger),
{
    if let FusedSpec::AddMatMul { a, b } = s {
        lemma_divides_trans(g.memo_align, align, bigger);
        if let Some(l) = a.scratch_layout {
            lemma_divides_trans(l.align as nat, align, bigger);
        }
        if let Some(l) = b.scratch_layout {
            lemma_divides_trans(l.align as nat, align, bigger);
        }
    } else {
        lemma_divides_trans(g.item_align, align, bigger);
    }
}

/// One tile-dependent entry keeps the layout aligned.
proof fn lemma_step_aligned<T>(w: Walk, ix: nat, s: FusedSpec<T>, g: Geometry)
    requires
        is_loc_dependant(s),
        w.align > 0,
        g.item_align > 0,
        g.memo_align > 0,
        s is AddMatMul ==> layout_ok(s->a.scratch_layout) && layout_ok(s->b.scratch_layout),
        step(w, ix, s, g).offset <= usize::MAX,
    ensures
        divides(w.align, step(w, ix, s, g).align),
        step(w, ix, s, g).align > 0,
        step(w, ix, s, g).lds.last().loc as nat <= step(w, ix, s, g).offset,
        buffers_aligned(s, step(w, ix, s, g).lds.last(), g, step(w, ix, s, g).align),
{
    if let FusedSpec::AddMatMul { a, b } = s {
        let pm = put(w.offset, w.align, g.memo, g.memo_align);
        lemma_put(w.offset, w.align, g.memo, g.memo_align);
        let pa = place(pm.0, pm.1, a.scratch_layout);
        let pb = place(pa.0, pa.1, b.scratch_layout);
        lemma_place(pm.0, pm.1, a.scratch_layout);
        lemma_place(pa.0, pa.1, b.scratch_layout);
        assert(divides(pm.1, pa.1)) by {
            if let Some(l) = a.scratch_layout {
                lemma_put(pm.0, pm.1, l.size as nat, l.align as nat);
            } else {
                assert(pa.1 == 1 * pm.1);
            }
        }
        assert(divides(pa.1, pb.1)) by {
            if let Some(l) = b.scratch_layout {
                lemma_put(pa.0, pa.1, l.size as nat, l.align as nat);
            } else {
                assert(pb.1 == 1 * pa.1);
            }
        }
        lemma_divides_trans(pm.1, pa.1, pb.1);
        lemma_divides_trans(w.align, pm.1, pb.1);
        lemma_divides_trans(g.memo_align, pm.1, pb.1);
        if let Some(l) = a.scratch_layout {
            lemma_put(pm.0, pm.1, l.size as nat, l.align as nat);
            lemma_divides_trans(l.align as nat, pa.1, pb.1);
        }
        if let Some(l) = b.scratch_layout {
            lemma_put(pa.0, pa.1, l.size as nat, l.align as nat);
        }
    } else {
        lemma_put(w.offset, w.align, g.item * region_len(s, g.mr, g.nr), g.item_align);
    }
}

/// Alignment: in the layout of any valid chain, every memo record and
/// vector or tile copy starts at a multiple of its type's alignment, each
/// buffer that a panel source asks for starts at a multiple of its
/// alignment, and the blob's alignment is a common multiple of all of them
/// and of the start alignment.
pub proof fn lemma_layout_alignment<T>(specs: Seq<FusedSpec<T>>, i: nat, g: Geometry, m: nat, n: nat)
    requires
        i <= specs.len() <= usize::MAX,
        g.base > 0,
        g.item_align > 0,
        g.memo_align > 0,
        fits_upto(specs, i, g),
        first_error(specs, specs.len(), m, n) is None,
    ensures
        walk(specs, i, g).align > 0,
        divides(g.base, walk(specs, i, g).align),
        forall|j: int|
            0 <= j < walk(specs, i, g).lds.len() ==> buffers_aligned(
                specs[(#[trigger] walk(specs, i, g).lds[j]).spec as int],
                walk(specs, i, g).lds[j],
                g,
                walk(specs, i, g).align,
            ),
    decreases i,
{
    if i == 0 {
        assert(g.base == 1 * g.base);
    } else {
        let q = (i - 1) as nat;
        assert(fits_upto(specs, q, g));
        lemma_layout_alignment(specs, q, g, m, n);
        let w = walk(specs, q, g);
        let w1 = walk(specs, i, g);
        assert(walk(specs, i, g).offset <= usize::MAX);
        let s = specs[q as int];
        if is_loc_dependant(s) {
            lemma_no_error(specs, specs.len(), m, n);
            assert(entry_error(specs[q as int], q, m, n) is None);
            lemma_step_aligned(w, q, s, g);
            lemma_divides_trans(g.base, w.align, w1.align);
            assert(w1.lds.last().loc as nat <= usize::MAX);
            assert forall|j: int| 0 <= j < w1.lds.len() implies buffers_aligned(
                specs[(#[trigger] w1.lds[j]).spec as int],
                w1.lds[j],
                g,
                w1.align,
            ) by {
                if j < w.lds.len() {
                    assert(w1.lds[j] == w.lds[j]);
                    lemma_buffers_aligned_grow(specs[w.lds[j].spec as int], w.lds[j], g, w.align, w1.align);
                } else {
                    assert(w1.lds[j] == w1.lds.last());
                    assert(w1.lds[j].spec == q);
                }
            }
        } else {
            assert(w1 == w);
        }
    }
}

/// The alignments that entry `s` needs all divide `d`.
pub open spec fn requests_divide<T>(s: FusedSpec<T>, g: Geometry, d: nat) -> bool {
    match s {
        FusedSpec::AddMatMul { a, b } => {
            &&& divides(g.memo_align, d)
            &&& (a.scratch_layout matches Some(l) ==> divides(l.align as nat, d))
            &&& (b.scratch_layout matches Some(l) ==> divides(l.align as nat, d))
        },
        _ => is_loc_dependant(s) ==> divides(g.item_align, d),
    }
}

proof fn lemma_place_least(off: nat, align: nat, l: Option<BufferLayout>, d: nat)
    requires
        align > 0,
        layout_ok(l),
        divides(align, d),
        l matches Some(x) ==> divides(x.align as nat, d),
    ensures
        divides(place(off, align, l).1, d),
{
    if let Some(x) = l {
        lemma_lcm_least(x.align as nat, align, d);
    }
}

/// The blob's alignment is the least one: it divides every common multiple
/// of the start alignment and of the alignments that the chain's entries
/// need.
pub proof fn lemma_layout_alignment_least<T>(specs: Seq<FusedSpec<T>>, i: nat, g: Geometry, m: nat, n: nat, d: nat)
    requires
        i <= specs.len() <= usize::MAX,
        g.base > 0,
        g.item_align > 0,
        g.memo_align > 0,
        fits_upto(specs, i, g),
        first_error(specs, specs.len(), m, n) is None,
        divides(g.base, d),
        forall|k: int| 0 <= k < i ==> requests_divide(#[trigger] specs[k], g, d),
    ensures
        divides(walk(specs, i, g).align, d),
    decreases i,
{
    if i > 0 {
        let q = (i - 1) as nat;
        assert(fits_upto(specs, q, g));
        lemma_layout_alignment_least(specs, q, g, m, n, d);
        lemma_layout_alignment(specs, q, g, m, n);
        let w = walk(specs, q, g);
        let s = specs[q as int];
        assert(requests_divide(specs[q as int], g, d));
        if is_loc_dependant(s) {
            lemma_no_error(specs, specs.len(), m, n);
            assert(entry_error(specs[q as int], q, m, n) is None);
            if let FusedSpec::AddMatMul { a, b } = s {
                let pm = put(w.offset, w.align, g.memo, g.memo_align);
                lemma_put(w.offset, w.align, g.memo, g.memo_align);
                lemma_lcm_least(g.memo_align, w.align, d);
                let pa = place(pm.0, pm.1, a.scratch_layout);
                lemma_place(pm.0, pm.1, a.scratch_layout);
                lemma_place_least(pm.0, pm.1, a.scratch_layout, d);
                lemma_place_least(pa.0, pa.1, b.scratch_layout, d);
            } else {
                lemma_lcm_least(g.item_align, w.align, d);
            }
        }
    } else {
        assert(walk(specs, 0, g).align == g.base);
    }
}

/// A prepared space keeps the alignment law for its whole chain.
pub proof fn lemma_space_alignment<T>(s: ScratchSpaceImpl<T>)
    requires
        s.wf(),
    ensures
        divides(vstd::layout::size_of::<usize>(), s.blob_align as nat),
        forall|d: nat|
            divides(vstd::layout::size_of::<usize>(), d) && (forall|k: int| 0 <= k < s.chain@.len() ==> requests_divide(#[trigger] s.chain@[k], s.geom(), d))
                ==> #[trigger] divides(s.blob_align as nat, d),
        forall|j: int|
            0 <= j < s.loc_dependant@.len() ==> buffers_aligned(
                s.chain@[(#[trigger] s.loc_dependant@[j]).spec as int],
                s.loc_dependant@[j],
                s.geom(),
                s.blob_align as nat,
            ),
{
    lemma_wf_facts(s);
    lemma_layout_alignment(s.chain@, s.chain@.len(), s.geom(), s.m as nat, s.n as nat);
    assert forall|d: nat|
        divides(vstd::layout::size_of::<usize>(), d) && (forall|k: int| 0 <= k < s.chain@.len() ==> requests_divide(#[trigger] s.chain@[k], s.geom(), d))
            implies #[trigger] divides(s.blob_align as nat, d) by {
        lemma_layout_alignment_least(s.chain@, s.chain@.len(), s.geom(), s.m as nat, s.n as nat, d);
    }
}

/// Border copy-back leaves the rest of the output alone: an item of the
/// output that no live scratch item lands on keeps its value.
pub proof fn lemma_copy_back_untouched<T>(c: Seq<T>, tile: Seq<T>, region: nat, st: StoreView, down: nat, right: nat, m_remnant: nat, n_remnant: nat, mr: nat, nr: nat, count: nat, y: int)
    requires
        0 <= y < c.len(),
        forall|x: nat| x < count && x % mr < m_remnant && x / mr < n_remnant ==> #[trigger] store_index(st, down, right, mr, nr, x) != y,
    ensures
        set_from_tile(c, tile, region, st, down, right, m_remnant, n_remnant, mr, nr, count)[y] == c[y],
    decreases count,
{
    if count > 0 {
        lemma_copy_back_untouched(c, tile, region, st, down, right, m_remnant, n_remnant, mr, nr, (count - 1) as nat, y);
        lemma_set_from_tile_len(c, tile, region, st, down, right, m_remnant, n_remnant, mr, nr, (count - 1) as nat);
        let x = (count - 1) as nat;
        assert(x < count);
        if x % mr < m_remnant && x / mr < n_remnant {
            assert(store_index(st, down, right, mr, nr, x) != y);
        }
    }
}

/// Border copy-back delivers the live part: a live scratch item that lands
/// inside the output, and on which no later live item lands, is what the
/// output holds there.
pub proof fn lemma_copy_back_live<T>(c: Seq<T>, tile: Seq<T>, region: nat, st: StoreView, down: nat, right: nat, m_remnant: nat, n_remnant: nat, mr: nat, nr: nat, count: nat, x0: nat)
    requires
        x0 < count,
        store_live(c, st, down, right, m_remnant, n_remnant, mr, nr, x0),
        forall|x: nat| x0 < x < count && x % mr < m_remnant && x / mr < n_remnant ==> #[trigger] store_index(st, down, right, mr, nr, x) != store_index(st, down, right, mr, nr, x0),
    ensures
        set_from_tile(c, tile, region, st, down, right, m_remnant, n_remnant, mr, nr, count)[store_index(st, down, right, mr, nr, x0) as int] == tile[(region + x0) as int],
    decreases count,
{
    lemma_set_from_tile_len(c, tile, region, st, down, right, m_remnant, n_remnant, mr, nr, (count - 1) as nat);
    let x = (count - 1) as nat;
    if x0 < x {
        lemma_copy_back_live(c, tile, region, st, down, right, m_remnant, n_remnant, mr, nr, x, x0);
        if x % mr < m_remnant && x / mr < n_remnant {
            assert(store_index(st, down, right, mr, nr, x) != store_index(st, down, right, mr, nr, x0));
        }
    }
}


/// No live scratch item of any store among the first `count` table
/// entries lands on output item `y`.
pub open spec fn untouched_by_stores<T>(y: int, lds: Seq<LocDependant>, specs: Seq<FusedSpec<T>>, down: nat, right: nat, m_remnant: nat, n_remnant: nat, mr: nat, nr: nat, count: nat) -> bool {
    forall|j: int, x: nat|
        0 <= j < count && x < mr * nr && x % mr < m_remnant && x / mr < n_remnant ==> !store_hits(specs[lds[j].spec as int], down, right, mr, nr, x, y)
}

/// Entry `s` is a store whose scratch item `x` lands on output item `y`.
pub open spec fn store_hits<T>(s: FusedSpec<T>, down: nat, right: nat, mr: nat, nr: nat, x: nat, y: int) -> bool {
    match s {
        FusedSpec::Store(st) => store_index(st, down, right, mr, nr, x) == y,
        _ => false,
    }
}

proof fn lemma_postprocessed_len<T>(c: Seq<T>, tile: Seq<T>, lds: Seq<LocDependant>, specs: Seq<FusedSpec<T>>, down: nat, right: nat, m_remnant: nat, n_remnant: nat, mr: nat, nr: nat, count: nat)
    ensures
        postprocessed(c, tile, lds, specs, down, right, m_remnant, n_remnant, mr, nr, count).len() == c.len(),
    decreases count,
{
    if count > 0 {
        lemma_postprocessed_len(c, tile, lds, specs, down, right, m_remnant, n_remnant, mr, nr, (count - 1) as nat);
        let prev = postprocessed(c, tile, lds, specs, down, right, m_remnant, n_remnant, mr, nr, (count - 1) as nat);
        let ld = lds[count - 1];
        if let FusedSpec::Store(st) = specs[ld.spec as int] {
            lemma_set_from_tile_len(prev, tile, ld.region as nat, st, down, right, m_remnant, n_remnant, mr, nr, mr * nr);
        }
    }
}

/// Border copy-back of a whole tile leaves the rest of the output alone:
/// an output item on which no live item of any store lands keeps its
/// value, whatever the stores and their order.
pub proof fn lemma_postprocess_untouched<T>(c: Seq<T>, tile: Seq<T>, lds: Seq<LocDependant>, specs: Seq<FusedSpec<T>>, down: nat, right: nat, m_remnant: nat, n_remnant: nat, mr: nat, nr: nat, count: nat, y: int)
    requires
        0 <= y < c.len(),
        count <= lds.len(),
        untouched_by_stores(y, lds, specs, down, right, m_remnant, n_remnant, mr, nr, count),
    ensures
        postprocessed(c, tile, lds, specs, down, right, m_remnant, n_remnant, mr, nr, count)[y] == c[y],
    decreases count,
{
    if count > 0 {
        let k = (count - 1) as nat;
        assert(untouched_by_stores(y, lds, specs, down, right, m_remnant, n_remnant, mr, nr, k));
        lemma_postprocess_untouched(c, tile, lds, specs, down, right, m_remnant, n_remnant, mr, nr, k, y);
        lemma_postprocessed_len(c, tile, lds, specs, down, right, m_remnant, n_remnant, mr, nr, k);
        let prev = postprocessed(c, tile, lds, specs, down, right, m_remnant, n_remnant, mr, nr, k);
        let ld = lds[k as int];
        if let FusedSpec::Store(st) = specs[ld.spec as int] {
            assert forall|x: nat| x < mr * nr && x % mr < m_remnant && x / mr < n_remnant implies #[trigger] store_index(st, down, right, mr, nr, x) != y by {
                assert(!store_hits(specs[lds[k as int].spec as int], down, right, mr, nr, x, y));
            }
            lemma_copy_back_untouched(prev, tile, ld.region as nat, st, down, right, m_remnant, n_remnant, mr, nr, mr * nr, y);
        }
    }
}

} // verus!
