use iris::error::IrisError;
use iris::hog::HogDescriptor;

#[test]
fn test_hog_descriptor_computation() {
    let hog = HogDescriptor::new(8, 2, 9);
    let l = hog.layout(32, 32).unwrap();
    assert_eq!((l.n_cells_y, l.n_cells_x), (4, 4));
    assert_eq!((l.n_blocks_y, l.n_blocks_x), (3, 3));
    assert_eq!(l.block_desc_len, 36);
    assert_eq!(l.total_len, 324);
}

#[test]
fn hog_layout_uneven_sides() {
    let hog = HogDescriptor::new(8, 2, 9);
    let l = hog.layout(20, 41).unwrap();
    assert_eq!((l.n_cells_y, l.n_cells_x), (2, 5));
    assert_eq!((l.n_blocks_y, l.n_blocks_x), (1, 4));
    assert_eq!(l.total_len, 144);
    let big_block = HogDescriptor::new(8, 3, 9);
    let l = big_block.layout(8, 8).unwrap();
    assert_eq!((l.n_blocks_y, l.n_blocks_x), (0, 0));
    assert_eq!(l.total_len, 0);
}

#[test]
fn test_hog_too_small_image() {
    let hog = HogDescriptor::new(8, 2, 9);
    let r = hog.layout(4, 4);
    assert!(matches!(r, Err(IrisError::InvalidParameter(_))));
    if let Err(IrisError::InvalidParameter(msg)) = r {
        assert_eq!(msg, "Image 4x4 too small for cell_size 8");
    }
    assert!(hog.layout(7, 100).is_err());
    assert!(hog.layout(100, 7).is_err());
    assert!(hog.layout(8, 8).is_ok());
}
