//! The two forms of a fused matrix-multiplication chain: the logical one
//! that callers build, and the physical one that a kernel runs on a tile.
use vstd::prelude::*;

verus! {

/// A binary operation between the tile and a scalar or a vector.
/// `SubF` is the flipped subtraction (`other - tile`).
#[derive(Copy, Clone, Debug, PartialEq, Eq, Structural)]
pub enum BinOp {
    Min,
    Max,
    Mul,
    Add,
    Sub,
    SubF,
}

/// How an integer rescale rounds.
#[derive(Copy, Clone, Debug, PartialEq, Eq, Structural)]
pub enum RoundingPolicy {
    Native,
    Zero,
    Away,
    MinusInf,
    PlusInf,
    Even,
    Odd,
}

/// Size and alignment, in bytes, of a buffer that a panel source asks for.
#[derive(Copy, Clone, Debug, PartialEq, Eq, Structural)]
pub struct BufferLayout {
    pub size: usize,
    pub align: usize,
}

/// An opaque source of packed panels of one matmul operand: its
/// contraction length, and the scratch buffer it needs where it packs
/// panels on demand.
#[derive(Copy, Clone, Debug, PartialEq, Eq, Structural)]
pub struct PanelSource {
    pub k: usize,
    pub scratch_layout: Option<BufferLayout>,
}

/// Where a panel provider put a fetched panel: its index along the
/// operand, and the scratch buffer (byte offset in the blob) it packed the
/// panel into, if any.
#[derive(Copy, Clone, Debug, PartialEq, Eq, Structural)]
pub struct PanelRef {
    pub panel: usize,
    pub buffer: Option<usize>,
}

/// A strided view of a tensor, in items: item `(row, col)` of the whole
/// output stands at `row * row_stride + col * col_stride`.
#[derive(Clone, Debug)]
pub struct OutputStore<T> {
    pub data: Vec<T>,
    pub row_stride: usize,
    pub col_stride: usize,
}

/// Where the tile of the output lands: item `(row, col)` of the output
/// stands at `row * row_stride + col * col_stride` of the output buffer.
#[derive(Copy, Clone, Debug, PartialEq, Eq, Structural)]
pub struct StoreView {
    pub row_stride: usize,
    pub col_stride: usize,
}

/// The item offset of `(row, col)` in a strided view.
pub open spec fn strided(row: nat, col: nat, rs: nat, cs: nat) -> nat {
    row * rs + col * cs
}

/// One logical operation of a fused chain.
#[derive(Clone, Debug)]
pub enum FusedSpec<T> {
    /// Combines every item with one scalar, given as a one-item tensor.
    BinScalar(Vec<T>, BinOp),
    /// Combines every item with the entry of its row.
    BinPerRow(Vec<T>, BinOp),
    /// Combines every item with the entry of its column.
    BinPerCol(Vec<T>, BinOp),
    /// Adds the outer product of a row vector and a column vector.
    AddRowColProducts(Vec<T>, Vec<T>),
    /// Adds a strided tensor, addressed by absolute coordinates.
    AddUnicast(OutputStore<T>),
    /// Writes the tile to the output buffer, through this view of it.
    Store(StoreView),
    /// Piecewise linear map with the slope given as a one-item tensor.
    LeakyRelu(Vec<T>),
    /// Adds the product of two packed operands.
    AddMatMul { a: PanelSource, b: PanelSource },
    ShiftLeft(usize),
    RoundingShiftRight(usize, RoundingPolicy),
    QScale(isize, RoundingPolicy, i32),
}

/// What a kernel-side pointer points into: a vector of chain entry `spec`
/// (`part` 0, or 1 for the column vector of a row-column product), the
/// output, or the planner's scratch items.
#[derive(Copy, Clone, Debug, PartialEq, Eq, Structural)]
pub enum Operand {
    Chain { spec: usize, part: usize },
    Output,
    Scratch,
}

/// A position in an operand, in items.
#[derive(Copy, Clone, Debug, PartialEq, Eq, Structural)]
pub struct VecPtr {
    pub operand: Operand,
    pub offset: usize,
}

/// A tile-shaped strided view starting at `at`, in items.
#[derive(Copy, Clone, Debug, PartialEq, Eq, Structural)]
pub struct TileView {
    pub at: VecPtr,
    pub row_stride: usize,
    pub col_stride: usize,
}

/// One entry of the physical program that a kernel runs on one tile.
#[derive(Copy, Clone, Debug)]
pub enum FusedKerSpec<T> {
    Done,
    Clear,
    Scalar(BinOp, T),
    LeakyRelu(T),
    PerRow(BinOp, VecPtr),
    PerCol(BinOp, VecPtr),
    AddRowColProducts(VecPtr, VecPtr),
    AddUnicast(TileView),
    Store(TileView),
    ShiftLeft(usize),
    RoundingShiftRight(usize, RoundingPolicy),
    QScale(isize, RoundingPolicy, i32),
    AddMatMul { k: usize, pa: PanelRef, pb: PanelRef },
}

/// Why a chain was refused, or a tile could not be run.
#[derive(Copy, Clone, Debug, PartialEq, Eq, Structural)]
pub enum ScratchError {
    /// Entry `.0` needs a one-item tensor and was given another.
    NotAScalar(usize),
    /// Entry `.0` does not fit the output shape: a vector of the wrong
    /// length, a view whose offsets overflow, or a zero alignment.
    BadShape(usize),
    /// The scratch layout does not fit in memory.
    LayoutOverflow,
    /// The kernel returned this non-zero status: an internal fault, not a
    /// caller error.
    Kernel(isize),
    /// The kernel changed the size of the scratch items: an internal fault.
    KernelContract,
}

} // verus!
