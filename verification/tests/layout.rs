use matmul::layout::{row_major_layout, KernelLayout, LayoutError};

#[test]
fn row_major_layout_of_a_product() {
    let layout = row_major_layout(2, 3, 3, 4).unwrap();
    assert_eq!(
        layout,
        KernelLayout {
            m: 2,
            k: 3,
            n: 4,
            rsa: 3,
            csa: 1,
            rsb: 4,
            csb: 1,
            rsc: 4,
            csc: 1,
            a_len: 6,
            b_len: 12,
            c_len: 8,
        }
    );
}

#[test]
fn row_major_layout_dimension_mismatch() {
    assert_eq!(row_major_layout(2, 3, 2, 2), Err(LayoutError::DimensionMismatch));
}

#[test]
fn row_major_layout_too_large() {
    assert_eq!(row_major_layout(usize::MAX, 2, 2, 2), Err(LayoutError::TooLarge));
    assert_eq!(row_major_layout(2, 2, 2, usize::MAX), Err(LayoutError::TooLarge));
    assert_eq!(row_major_layout(0, usize::MAX, usize::MAX, 0), Err(LayoutError::TooLarge));
    assert_eq!(
        row_major_layout(1 << (usize::BITS / 2), 1, 1, 1 << (usize::BITS / 2)),
        Err(LayoutError::TooLarge)
    );
}

#[test]
fn row_major_layout_without_elements() {
    let layout = row_major_layout(0, 3, 3, 4).unwrap();
    assert_eq!(layout.a_len, 0);
    assert_eq!(layout.b_len, 12);
    assert_eq!(layout.c_len, 0);
}
