use algorithms::matrix::Mat;

#[test]
fn a_new_matrix_can_be_made() {
    let _small: Mat<i32> = Mat::new(3, 4);
    let _empty: Mat<u8> = Mat::new(0, 0);
    let _wide: Mat<String> = Mat::new(1, 100);
}
