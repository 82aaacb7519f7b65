use tract_linalg::flatten::{Dim, Flatten, FlattenError};

#[test]
fn flatten_known_dims() {
    let f = Flatten::new(1);
    let r = f.compute_shape(&vec![Dim::Val(2), Dim::Val(3), Dim::Val(4)]).unwrap();
    assert_eq!(r, [Dim::Val(2), Dim::Val(12)]);
    let f0 = Flatten::new(0);
    assert_eq!(f0.compute_shape(&vec![Dim::Val(2), Dim::Val(3)]).unwrap(), [Dim::Val(1), Dim::Val(6)]);
    let f2 = Flatten::new(2);
    assert_eq!(f2.compute_shape(&vec![Dim::Val(2), Dim::Val(3)]).unwrap(), [Dim::Val(6), Dim::Val(1)]);
}

#[test]
fn flatten_symbol_scaled_on_its_side() {
    let f = Flatten::new(2);
    let s = Dim::Sym { id: 7, coef: 1 };
    let r = f.compute_shape(&vec![Dim::Val(2), s, Dim::Val(5)]).unwrap();
    assert_eq!(r, [Dim::Sym { id: 7, coef: 2 }, Dim::Val(5)]);
    let f1 = Flatten::new(1);
    let r = f1.compute_shape(&vec![Dim::Val(2), s, Dim::Val(5)]).unwrap();
    assert_eq!(r, [Dim::Val(2), Dim::Sym { id: 7, coef: 5 }]);
}

#[test]
fn flatten_two_symbols_refused() {
    let f = Flatten::new(1);
    let r = f.compute_shape(&vec![Dim::Sym { id: 0, coef: 1 }, Dim::Sym { id: 1, coef: 1 }]);
    assert_eq!(r, Err(FlattenError::SquareOfSymbols));
}

#[test]
fn flatten_overflow_reported() {
    let f = Flatten::new(2);
    let r = f.compute_shape(&vec![Dim::Val(usize::MAX), Dim::Val(2)]);
    assert_eq!(r, Err(FlattenError::Overflow));
    let z = f.compute_shape(&vec![Dim::Val(usize::MAX), Dim::Val(2), Dim::Val(0)]);
    assert_eq!(z, Err(FlattenError::Overflow));
    let f0 = Flatten::new(0);
    let zero = f0.compute_shape(&vec![Dim::Val(usize::MAX), Dim::Val(2), Dim::Val(0)]);
    assert_eq!(zero, Ok([Dim::Val(1), Dim::Val(0)]));
}
