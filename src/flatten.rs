//! Flattening a shape to two dimensions around an axis.
use vstd::prelude::*;

verus! {

/// A dimension: a known size, or `coef` times a symbol whose value is not
/// known yet.
#[derive(Copy, Clone, Debug, PartialEq, Eq, Structural)]
pub enum Dim {
    Val(usize),
    Sym { id: usize, coef: usize },
}

/// Why a shape cannot be flattened.
#[derive(Copy, Clone, Debug, PartialEq, Eq, Structural)]
pub enum FlattenError {
    /// More than one dimension is symbolic: the result would hold a
    /// product of symbols.
    SquareOfSymbols,
    /// A flattened size does not fit in `usize`.
    Overflow,
}

/// Flattens a shape into `[product of the dimensions before axis, product
/// of the others]`.
#[derive(Copy, Clone, Debug, PartialEq, Eq, Structural, Default)]
pub struct Flatten {
    pub axis: usize,
}

/// Number of symbolic dimensions.
pub open spec fn sym_count(s: Seq<Dim>) -> nat
    decreases s.len(),
{
    if s.len() == 0 {
        0
    } else {
        sym_count(s.drop_last()) + if s.last() is Sym { 1nat } else { 0nat }
    }
}

/// Product of the known dimensions.
pub open spec fn known_product(s: Seq<Dim>) -> nat
    decreases s.len(),
{
    if s.len() == 0 {
        1
    } else {
        known_product(s.drop_last()) * match s.last() {
            Dim::Val(v) => v as nat,
            Dim::Sym { .. } => 1nat,
        }
    }
}

/// The position of the first symbolic dimension, if any.
pub open spec fn first_sym(s: Seq<Dim>) -> Option<int>
    decreases s.len(),
{
    if s.len() == 0 {
        None
    } else {
        match first_sym(s.drop_last()) {
            Some(x) => Some(x),
            None => if s.last() is Sym {
                Some(s.len() - 1)
            } else {
                None
            },
        }
    }
}

/// The result of flattening where everything fits.
pub open spec fn flattened(shape: Seq<Dim>, axis: int) -> Option<(Dim, Dim)> {
    let left = known_product(shape.take(axis));
    let right = known_product(shape.skip(axis));
    if left > usize::MAX || right > usize::MAX {
        None
    } else {
    match first_sym(shape) {
        None => if left <= usize::MAX && right <= usize::MAX {
            Some((Dim::Val(left as usize), Dim::Val(right as usize)))
        } else {
            None
        },
        Some(ix) => match shape[ix] {
            Dim::Sym { id, coef } => if ix < axis {
                if coef * left <= usize::MAX && right <= usize::MAX {
                    Some((Dim::Sym { id, coef: (coef * left) as usize }, Dim::Val(right as usize)))
                } else {
                    None
                }
            } else {
                if left <= usize::MAX && coef * right <= usize::MAX {
                    Some((Dim::Val(left as usize), Dim::Sym { id, coef: (coef * right) as usize }))
                } else {
                    None
                }
            },
            _ => None,
        },
    }
    }
}

proof fn lemma_product_zero(s: Seq<Dim>, i: int)
    requires
        0 <= i < s.len(),
        s[i] == Dim::Val(0),
    ensures
        known_product(s) == 0,
    decreases s.len(),
{
    let p = known_product(s.drop_last());
    if i < s.len() - 1 {
        assert(s.drop_last()[i] == s[i]);
        lemma_product_zero(s.drop_last(), i);
        assert(p == 0);
    }
    let f = match s.last() {
        Dim::Val(v) => v as nat,
        Dim::Sym { .. } => 1nat,
    };
    assert(p == 0 || f == 0);
    assert(p * f == 0) by (nonlinear_arith)
        requires
            p == 0 || f == 0,
    ;
}

proof fn lemma_product_grows(s: Seq<Dim>, k: int)
    requires
        0 <= k <= s.len(),
        forall|i: int| 0 <= i < s.len() ==> s[i] != Dim::Val(0),
    ensures
        known_product(s.take(k)) <= known_product(s),
        known_product(s) >= 1,
    decreases s.len(),
{
    if s.len() > 0 {
        if k == s.len() {
            assert(s.take(k) =~= s);
            lemma_product_grows(s.drop_last(), k - 1);
        } else {
            lemma_product_grows(s.drop_last(), k);
            assert(s.drop_last().take(k) =~= s.take(k));
        }
        let p = known_product(s.drop_last());
        let f = match s.last() {
            Dim::Val(v) => v as nat,
            Dim::Sym { .. } => 1nat,
        };
        assert(p * f >= p) by (nonlinear_arith)
            requires
                f >= 1,
        ;
    }
}

/// Product of the known dimensions of `s`, or `None` where it does not fit.
fn checked_known_product(s: &Vec<Dim>, from: usize, to: usize) -> (r: Option<usize>)
    requires
        from <= to <= s@.len(),
    ensures
        r matches Some(p) ==> p == known_product(s@.subrange(from as int, to as int)),
        r is None <==> known_product(s@.subrange(from as int, to as int)) > usize::MAX,
{
    let ghost sub = s@.subrange(from as int, to as int);
    let mut i: usize = from;
    while i < to
        invariant
            from <= i <= to <= s@.len(),
            sub == s@.subrange(from as int, to as int),
            forall|q: int| 0 <= q < i - from ==> sub[q] != Dim::Val(0),
        decreases to - i,
    {
        proof {
            assert(sub[i - from] == s@[i as int]);
        }
        if s[i] == Dim::Val(0) {
            proof {
                lemma_product_zero(sub, i - from);
            }
            return Some(0);
        }
        i = i + 1;
    }
    let mut acc: usize = 1;
    let mut j: usize = from;
    while j < to
        invariant
            from <= j <= to <= s@.len(),
            sub == s@.subrange(from as int, to as int),
            forall|q: int| 0 <= q < sub.len() ==> sub[q] != Dim::Val(0),
            acc == known_product(sub.take(j - from)),
        decreases to - j,
    {
        proof {
            assert(sub.take(j - from + 1).drop_last() =~= sub.take(j - from));
            assert(sub.take(j - from + 1).last() == s@[j as int]);
        }
        let f: usize = match s[j] {
            Dim::Val(v) => v,
            Dim::Sym { .. } => 1,
        };
        match acc.checked_mul(f) {
            Some(p) => {
                acc = p;
            },
            None => {
                proof {
                    lemma_product_grows(sub, j - from + 1);
                }
                return None;
            },
        }
        j = j + 1;
    }
    proof {
        assert(sub.take(j - from) =~= sub);
    }
    Some(acc)
}

impl Flatten {
    pub fn new(axis: usize) -> (r: Self)
        ensures
            r.axis == axis,
    {
        Flatten { axis }
    }

    /// Flattens `shape` into two dimensions: the product of the dimensions
    /// before the axis and the product of the others. At most one symbolic
    /// dimension is accepted; it is scaled by the known product of its side.
    pub fn compute_shape(&self, shape: &Vec<Dim>) -> (r: Result<[Dim; 2], FlattenError>)
        requires
            self.axis <= shape@.len(),
        ensures
            sym_count(shape@) > 1 ==> r == Err::<[Dim; 2], FlattenError>(FlattenError::SquareOfSymbols),
            sym_count(shape@) <= 1 ==> match flattened(shape@, self.axis as int) {
                Some(p) => r matches Ok(a) && a@ == seq![p.0, p.1],
                None => r == Err::<[Dim; 2], FlattenError>(FlattenError::Overflow),
            },
    {
        let mut syms: usize = 0;
        let mut stream: Option<usize> = None;
        let mut i: usize = 0;
        while i < shape.len()
            invariant
                i <= shape@.len(),
                syms == sym_count(shape@.take(i as int)),
                syms <= i,
                stream matches Some(x) ==> first_sym(shape@.take(i as int)) == Some(x as int),
                stream is None ==> first_sym(shape@.take(i as int)) is None,
                forall|x: int| first_sym(shape@.take(i as int)) == Some(x) ==> 0 <= x < i && shape@[x] is Sym,
            decreases shape@.len() - i,
        {
            proof {
                assert(shape@.take(i as int + 1).drop_last() =~= shape@.take(i as int));
            }
            if let Dim::Sym { .. } = shape[i] {
                syms = syms + 1;
                if stream.is_none() {
                    stream = Some(i);
                }
            }
            i = i + 1;
        }
        assert(shape@.take(i as int) =~= shape@);
        if syms > 1 {
            return Err(FlattenError::SquareOfSymbols);
        }
        assert(shape@.subrange(0, self.axis as int) =~= shape@.take(self.axis as int));
        assert(shape@.subrange(self.axis as int, shape@.len() as int) =~= shape@.skip(self.axis as int));
        let left = match checked_known_product(shape, 0, self.axis) {
            Some(p) => p,
            None => return Err(FlattenError::Overflow),
        };
        let right = match checked_known_product(shape, self.axis, shape.len()) {
            Some(p) => p,
            None => return Err(FlattenError::Overflow),
        };
        match stream {
            None => Ok([Dim::Val(left), Dim::Val(right)]),
            Some(ix) => match shape[ix] {
                Dim::Sym { id, coef } => if ix < self.axis {
                    match coef.checked_mul(left) {
                        Some(c) => Ok([Dim::Sym { id, coef: c }, Dim::Val(right)]),
                        None => Err(FlattenError::Overflow),
                    }
                } else {
                    match coef.checked_mul(right) {
                        Some(c) => Ok([Dim::Val(left), Dim::Sym { id, coef: c }]),
                        None => Err(FlattenError::Overflow),
                    }
                },
                Dim::Val(_) => Err(FlattenError::Overflow),
            },
        }
    }
}

} // verus!
