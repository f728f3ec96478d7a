use numtoys::matrix::Matrix;

#[test]
fn new_is_zero() {
    let m = Matrix::<u16, 3, 3>::new();
    assert_eq!(m.entries(), vec![0; 9]);
}

#[test]
fn set_and_index_by_row() {
    let mut m = Matrix::<u16, 2, 2>::new();
    m.set((0, 1), 7);
    m.set((1, 0), 3);
    assert_eq!(m.index((0, 1)), 7);
    assert_eq!(m.index((1, 0)), 3);
    assert_eq!(m.entries(), vec![0, 7, 3, 0]);
}

#[test]
fn add_entrywise() {
    let a = Matrix::<u16, 2, 2>::from_vec(vec![1, 2, 3, 4]);
    let b = Matrix::<u16, 2, 2>::from_vec(vec![10, 20, 30, 40]);
    assert_eq!(a.add(&b).entries(), vec![11, 22, 33, 44]);
}

#[test]
fn mul_of_rectangles() {
    let a = Matrix::<u16, 2, 3>::from_vec(vec![1, 2, 3, 4, 5, 6]);
    let b = Matrix::<u16, 3, 1>::from_vec(vec![1, 0, 2]);
    assert_eq!(a.mul(&b).entries(), vec![7, 16]);
    let c = Matrix::<u16, 2, 2>::from_vec(vec![1, 1, 1, 0]);
    assert_eq!(c.mul(&c).entries(), vec![2, 1, 1, 1]);
}

#[test]
fn reduce_entries() {
    let mut a = Matrix::<u16, 2, 2>::from_vec(vec![10, 25, 7, 100]);
    a.reduce(10);
    assert_eq!(a.entries(), vec![0, 5, 7, 0]);
}

#[test]
fn text_rows_and_columns() {
    let a = Matrix::<u16, 2, 2>::from_vec(vec![1, 2, 30, 4]);
    assert_eq!(a.to_text(), "1 2\n30 4\n");
    let z = Matrix::<u16, 2, 0>::new();
    assert_eq!(z.to_text(), "");
}

#[test]
fn pow_mod_of_fibonacci_matrix() {
    let f = Matrix::<u16, 2, 2>::from_vec(vec![1, 1, 1, 0]);
    assert_eq!(f.pow_mod(10, 10).entries(), vec![9, 5, 5, 4]);
    assert_eq!(f.pow_mod(1, 10).entries(), vec![1, 1, 1, 0]);
    assert_eq!(f.pow_mod(0, 10).entries(), vec![1, 0, 0, 1]);
    assert_eq!(f.pow_mod(20, 100).entries(), vec![46, 65, 65, 81]);
}

#[test]
fn pow_mod_matches_repeated_products() {
    let a = Matrix::<u16, 3, 3>::from_vec(vec![1, 2, 0, 0, 1, 3, 4, 0, 1]);
    let mut want = Matrix::<u16, 3, 3>::from_vec(vec![1, 0, 0, 0, 1, 0, 0, 0, 1]);
    for e in 0..30u128 {
        assert_eq!(a.pow_mod(e, 7).entries(), want.entries(), "e = {e}");
        want = want.mul(&a);
        want.reduce(7);
    }
}

#[test]
fn pow_mod_period_of_twenty_term_recurrence() {
    let mut mat = Matrix::<u16, 20, 20>::new();
    for i in 0..19 {
        mat.set((i, i + 1), 1);
        mat.set((19, i), 1);
    }
    mat.set((19, 19), 1);
    let res = mat.pow_mod(153547986096937705890316909406143682736, 10);
    let target: Vec<u16> = vec![1, 8, 4, 4, 6, 7, 4, 4, 0, 7, 3, 7, 0, 9, 5, 5, 1, 6, 1, 5];
    let mut v = res.mul(&Matrix::<u16, 20, 1>::from_vec(target.clone()));
    v.reduce(10);
    assert_eq!(v.entries(), target);
}
