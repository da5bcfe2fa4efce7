use raytracer::matrix::{cofactor_sign, remove_idx, M3, M4};

#[test]
fn eq() {
    let a: [[f32; 4]; 4] = [[1., 2., 3., 4.], [5., 6., 7., 8.], [9., 8., 7., 6.], [5., 4., 3., 2.]];
    let b: [[f32; 4]; 4] = [[1., 2., 3., 4.], [5., 6., 7., 8.], [9., 8., 7., 6.], [5., 4., 3., 2.]];
    assert_eq!(a, b);
    assert_eq!(M4::t(M4::t(a)), b)
}

#[test]
fn dne() {
    let a: [[f32; 4]; 4] = [[1., 2., 3., 4.], [5., 6., 7., 8.], [9., 8., 7., 6.], [5., 4., 3., 2.]];
    let b: [[f32; 4]; 4] = [[2., 2., 3., 4.], [5., 6., 7., 8.], [9., 8., 7., 6.], [5., 4., 3., 2.]];
    assert_ne!(a, b);
    assert_ne!(M4::t(a), b)
}

#[test]
fn sub() {
    let a: [[f32; 4]; 4] = [[0., 9., 3., 0.], [9., 8., 0., 8.], [1., 8., 5., 3.], [0., 0., 5., 8.]];
    let b: [[f32; 3]; 3] = [[0., 3., 0.], [9., 0., 8.], [0., 5., 8.]];
    assert_eq!(M4::sub(a, 2, 1), b);
    let c: [[f32; 2]; 2] = [[9., 0.], [0., 5.]];
    assert_eq!(M3::sub(b, 0, 2), c)
}

#[test]
fn transpose() {
    let identity: [[f32; 4]; 4] =
        [[1., 0., 0., 0.], [0., 1., 0., 0.], [0., 0., 1., 0.], [0., 0., 0., 1.]];
    let a: [[f32; 4]; 4] = [[0., 9., 3., 0.], [9., 8., 0., 8.], [1., 8., 5., 3.], [0., 0., 5., 8.]];
    let b: [[f32; 4]; 4] = [[0., 9., 1., 0.], [9., 8., 8., 0.], [3., 0., 5., 5.], [0., 8., 3., 8.]];
    assert_eq!(M4::t(a), b);
    assert_eq!(M4::t(identity), identity)
}

#[test]
fn transpose_twice_gives_the_grid_back() {
    let a: [[i32; 4]; 4] = [[1, 2, 3, 4], [5, 6, 7, 8], [9, 10, 11, 12], [13, 14, 15, 16]];
    assert_eq!(M4::t(M4::t(a)), a);
    assert_eq!(M4::t(a)[0], [1, 5, 9, 13]);
    assert_eq!(M4::t(a)[3], [4, 8, 12, 16]);
}

#[test]
fn remove_idx_drops_one_element() {
    assert_eq!(remove_idx(vec![10, 20, 30, 40], 0), vec![20, 30, 40]);
    assert_eq!(remove_idx(vec![10, 20, 30, 40], 2), vec![10, 20, 40]);
    assert_eq!(remove_idx(vec![10, 20, 30, 40], 3), vec![10, 20, 30]);
    assert_eq!(remove_idx(vec!["only"], 0), Vec::<&str>::new());
}

#[test]
fn sub_every_row_and_column_of_3x3() {
    let m: [[u8; 3]; 3] = [[1, 2, 3], [4, 5, 6], [7, 8, 9]];
    assert_eq!(M3::sub(m, 0, 0), [[5, 6], [8, 9]]);
    assert_eq!(M3::sub(m, 0, 1), [[4, 6], [7, 9]]);
    assert_eq!(M3::sub(m, 0, 2), [[4, 5], [7, 8]]);
    assert_eq!(M3::sub(m, 1, 0), [[2, 3], [8, 9]]);
    assert_eq!(M3::sub(m, 1, 1), [[1, 3], [7, 9]]);
    assert_eq!(M3::sub(m, 1, 2), [[1, 2], [7, 8]]);
    assert_eq!(M3::sub(m, 2, 0), [[2, 3], [5, 6]]);
    assert_eq!(M3::sub(m, 2, 1), [[1, 3], [4, 6]]);
    assert_eq!(M3::sub(m, 2, 2), [[1, 2], [4, 5]]);
}

#[test]
fn sub_of_4x4_corners() {
    let m: [[u8; 4]; 4] = [[1, 2, 3, 4], [5, 6, 7, 8], [9, 10, 11, 12], [13, 14, 15, 16]];
    assert_eq!(M4::sub(m, 0, 0), [[6, 7, 8], [10, 11, 12], [14, 15, 16]]);
    assert_eq!(M4::sub(m, 3, 3), [[1, 2, 3], [5, 6, 7], [9, 10, 11]]);
    assert_eq!(M4::sub(m, 0, 3), [[5, 6, 7], [9, 10, 11], [13, 14, 15]]);
    assert_eq!(M4::sub(m, 1, 2), [[1, 2, 4], [9, 10, 12], [13, 14, 16]]);
}

#[test]
fn sub_clamps_indices_into_the_grid() {
    let m3: [[u8; 3]; 3] = [[1, 2, 3], [4, 5, 6], [7, 8, 9]];
    assert_eq!(M3::sub(m3, -1, 0), M3::sub(m3, 0, 0));
    assert_eq!(M3::sub(m3, 0, -7), M3::sub(m3, 0, 0));
    assert_eq!(M3::sub(m3, 3, 1), M3::sub(m3, 2, 1));
    assert_eq!(M3::sub(m3, i32::MAX, i32::MIN), M3::sub(m3, 2, 0));
    let m4: [[u8; 4]; 4] = [[1, 2, 3, 4], [5, 6, 7, 8], [9, 10, 11, 12], [13, 14, 15, 16]];
    assert_eq!(M4::sub(m4, 4, 4), M4::sub(m4, 3, 3));
    assert_eq!(M4::sub(m4, -1, 9), M4::sub(m4, 0, 3));
    assert_eq!(M4::sub(m4, i32::MIN, i32::MAX), [[5, 6, 7], [9, 10, 11], [13, 14, 15]]);
}

#[test]
fn sub_of_transpose_is_transpose_of_sub() {
    let m: [[u8; 4]; 4] = [[1, 2, 3, 4], [5, 6, 7, 8], [9, 10, 11, 12], [13, 14, 15, 16]];
    let left = M4::sub(M4::t(m), 1, 2);
    let right = M4::sub(m, 2, 1);
    for i in 0..3 {
        for j in 0..3 {
            assert_eq!(left[i][j], right[j][i]);
        }
    }
}

#[test]
fn cofactor_sign_is_a_checkerboard() {
    assert_eq!(cofactor_sign(0, 0), 1);
    assert_eq!(cofactor_sign(0, 1), -1);
    assert_eq!(cofactor_sign(1, 0), -1);
    assert_eq!(cofactor_sign(1, 1), 1);
    assert_eq!(cofactor_sign(2, 3), -1);
    assert_eq!(cofactor_sign(3, 3), 1);
    assert_eq!(cofactor_sign(-1, 0), -1);
    assert_eq!(cofactor_sign(-3, -1), 1);
    assert_eq!(cofactor_sign(i32::MAX, i32::MAX), 1);
    assert_eq!(cofactor_sign(i32::MAX, 0), -1);
    assert_eq!(cofactor_sign(i32::MIN, i32::MIN), 1);
}
