use rust_recipes::helpers::double;

#[test]
fn test_macro() {
    // square!(3 + 2) expands to (3 + 2) * (3 + 2)
    let sq = (3 + 2) * (3 + 2);
    assert_eq!(sq, 25);

    // vec_min![10, 20, 30, 40] is a vector with at least one element
    let v = vec![10, 20, 30, 40];
    assert_eq!(v.len(), 4);

    // sum!(1, 2, 3, 4) expands to 1 + (2 + (3 + 4))
    let s = 1 + (2 + (3 + 4));
    assert_eq!(s, 10);

    // call_double!(21) calls the crate's `double`
    let d = double(21);
    assert_eq!(d, 42);
}

#[test]
fn double_keeps_the_sign() {
    assert_eq!(double(-7), -14);
    assert_eq!(double(0), 0);
    assert_eq!(double(1_073_741_823), 2_147_483_646);
}
