use algoritmoi::linear::Matrix;

#[test]
fn identity_and_get_set() {
    let mut m = Matrix::new(2, 3, 7);
    assert_eq!(m.get(1, 2), 0);
    m.set(1, 2, 5);
    assert_eq!(m.get(1, 2), 5);
    let id = Matrix::identity(3, 7);
    for r in 0..3 {
        for c in 0..3 {
            assert_eq!(id.get(r, c), if r == c { 1 } else { 0 });
        }
    }
}

#[test]
fn add_sub_mul() {
    let mut a = Matrix::new(2, 2, 7);
    a.set(0, 0, 1);
    a.set(0, 1, 2);
    a.set(1, 0, 3);
    a.set(1, 1, 4);
    let b = a.add(&a);
    assert_eq!(b.get(0, 0), 2);
    assert_eq!(b.get(1, 1), 1);
    let z = b.sub(&a);
    for r in 0..2 {
        for c in 0..2 {
            assert_eq!(z.get(r, c), a.get(r, c));
        }
    }
    let p = a.mul(&a);
    // [[1,2],[3,4]]^2 = [[7,10],[15,22]] = [[0,3],[1,1]] mod 7
    assert_eq!(p.get(0, 0), 0);
    assert_eq!(p.get(0, 1), 3);
    assert_eq!(p.get(1, 0), 1);
    assert_eq!(p.get(1, 1), 1);
}

#[test]
fn invert_produces_an_inverse() {
    let mut a = Matrix::new(2, 2, 7);
    a.set(0, 0, 1);
    a.set(0, 1, 2);
    a.set(1, 0, 3);
    a.set(1, 1, 4);
    let b = a.invert().unwrap();
    let prod = b.mul(&a);
    for r in 0..2 {
        for c in 0..2 {
            assert_eq!(prod.get(r, c), if r == c { 1 } else { 0 });
        }
    }
}

#[test]
fn singular_matrix_has_no_inverse() {
    let mut a = Matrix::new(2, 2, 7);
    a.set(0, 0, 1);
    a.set(0, 1, 2);
    a.set(1, 0, 2);
    a.set(1, 1, 4);
    assert!(a.invert().is_none());
    let mut aug = Matrix::identity(2, 7);
    let rank = a.duplicate().gaussian_elimination(&mut aug);
    assert_eq!(rank, 1);
}

#[test]
fn elimination_reduces_full_rank_to_identity() {
    let mut a = Matrix::new(2, 2, 5);
    a.set(0, 0, 2);
    a.set(0, 1, 1);
    a.set(1, 0, 1);
    a.set(1, 1, 1);
    let mut aug = Matrix::identity(2, 5);
    let rank = a.gaussian_elimination(&mut aug);
    assert_eq!(rank, 2);
    for r in 0..2 {
        for c in 0..2 {
            assert_eq!(a.get(r, c), if r == c { 1 } else { 0 });
        }
    }
}

#[test]
fn pow_by_squaring() {
    let mut a = Matrix::new(2, 2, 97);
    a.set(0, 0, 1);
    a.set(0, 1, 1);
    a.set(1, 0, 1);
    a.set(1, 1, 0);
    // Fibonacci matrix: a^10 holds F(11)=89, F(10)=55, F(9)=34
    let p = a.pow(10);
    assert_eq!(p.get(0, 0), 89);
    assert_eq!(p.get(0, 1), 55);
    assert_eq!(p.get(1, 0), 55);
    assert_eq!(p.get(1, 1), 34);
    let id = a.pow(0);
    assert_eq!(id.get(0, 0), 1);
    assert_eq!(id.get(0, 1), 0);
    // a^-1 * a == identity
    let inv = a.pow(-1);
    let prod = inv.mul(&a);
    for r in 0..2 {
        for c in 0..2 {
            assert_eq!(prod.get(r, c), if r == c { 1 } else { 0 });
        }
    }
}
