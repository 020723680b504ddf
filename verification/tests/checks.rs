use iris::checks::{
    check_bounds_length, check_channels, check_descriptor_dims, check_inpaint_mask, check_kernel_nonempty,
    check_odd_kernel, check_pyr_down, check_same_length, check_template_fits, is_matrix_shape, merged_shape, tile_layout,
};
use iris::error::IrisError;

#[test]
fn kernel_checks() {
    assert!(check_odd_kernel(3).is_ok());
    assert!(matches!(check_odd_kernel(4), Err(IrisError::InvalidParameter(_))));
    assert!(matches!(check_odd_kernel(0), Err(IrisError::InvalidParameter(_))));
    assert!(check_kernel_nonempty(3, 3).is_ok());
    assert!(check_kernel_nonempty(0, 0).is_err());
    assert!(check_kernel_nonempty(2, 0).is_err());
}

#[test]
fn channel_check_reports_message() {
    assert!(check_channels(3, 3, "Input must be a 3-channel RGB image").is_ok());
    match check_channels(1, 3, "Input must be a 3-channel RGB image") {
        Err(IrisError::InvalidParameter(m)) => assert_eq!(m, "Input must be a 3-channel RGB image"),
        other => panic!("unexpected {:?}", other),
    }
}

#[test]
fn merged_shape_rules() {
    assert_eq!(merged_shape(&vec![[1, 4, 5], [1, 4, 5], [1, 4, 5]]).unwrap(), [3, 4, 5]);
    assert!(matches!(merged_shape(&Vec::new()), Err(IrisError::InvalidParameter(_))));
    match merged_shape(&vec![[1, 4, 5], [2, 4, 6], [1, 3, 5]]) {
        Err(IrisError::DimensionMismatch { expected, actual }) => {
            assert_eq!(expected, vec![1, 4, 5]);
            assert_eq!(actual, vec![2, 4, 6]);
        }
        other => panic!("unexpected {:?}", other),
    }
}

#[test]
fn inpaint_mask_rules() {
    assert!(check_inpaint_mask([3, 10, 10], [1, 10, 10]).is_ok());
    match check_inpaint_mask([3, 10, 10], [1, 8, 10]) {
        Err(IrisError::DimensionMismatch { expected, actual }) => {
            assert_eq!(expected, vec![3, 8, 10]);
            assert_eq!(actual, vec![3, 10, 10]);
        }
        other => panic!("unexpected {:?}", other),
    }
    assert!(matches!(check_inpaint_mask([3, 10, 10], [3, 10, 10]), Err(IrisError::InvalidParameter(_))));
}

#[test]
fn size_checks() {
    assert!(check_template_fits(10, 10, 3, 10).is_ok());
    match check_template_fits(10, 10, 11, 2) {
        Err(IrisError::DimensionMismatch { expected, actual }) => {
            assert_eq!(expected, vec![10, 10]);
            assert_eq!(actual, vec![11, 2]);
        }
        other => panic!("unexpected {:?}", other),
    }
    assert!(check_descriptor_dims(5, 32, 7, 32).is_ok());
    match check_descriptor_dims(5, 32, 7, 16) {
        Err(IrisError::DimensionMismatch { expected, actual }) => {
            assert_eq!(expected, vec![5, 32]);
            assert_eq!(actual, vec![7, 16]);
        }
        other => panic!("unexpected {:?}", other),
    }
    assert!(check_same_length(4, 4).is_ok());
    match check_same_length(4, 3) {
        Err(IrisError::DimensionMismatch { expected, actual }) => {
            assert_eq!(expected, vec![4]);
            assert_eq!(actual, vec![3]);
        }
        other => panic!("unexpected {:?}", other),
    }
    assert!(check_pyr_down(2, 2).is_ok());
    assert!(check_pyr_down(1, 5).is_err());
    assert!(check_pyr_down(5, 1).is_err());
}

#[test]
fn test_in_range_invalid_length() {
    // Three channels, one lower bound, three upper bounds.
    assert!(check_bounds_length(3, 1, 3).is_err());
    assert!(check_bounds_length(3, 3, 3).is_ok());
    match check_bounds_length(3, 2, 3) {
        Err(IrisError::InvalidParameter(m)) => assert_eq!(m, "low/high length (2/3) must match channels (3)"),
        other => panic!("unexpected {:?}", other),
    }
}

#[test]
fn tiles() {
    assert_eq!(tile_layout(64, 48, 8).unwrap(), (8, 6));
    assert!(matches!(tile_layout(64, 48, 0), Err(IrisError::InvalidParameter(_))));
    assert!(matches!(tile_layout(4, 64, 8), Err(IrisError::InvalidParameter(_))));
}

#[test]
fn matrix_shapes() {
    assert!(is_matrix_shape(&vec![3, 3], 2, 3));
    assert!(!is_matrix_shape(&vec![3, 2], 2, 3));
    assert!(!is_matrix_shape(&vec![3, 3, 3], 2, 3));
    assert!(is_matrix_shape(&Vec::new(), 0, 5));
}

#[test]
fn test_inpaint_dimension_mismatch() {
    // An 8x8 colour image with a 6x6 mask.
    assert!(check_inpaint_mask([3, 8, 8], [1, 6, 6]).is_err());
}

#[test]
fn test_color_invalid_channel() {
    // Four channels where RGB conversions want three.
    assert!(check_channels(4, 3, "Input must be a 3-channel RGB image").is_err());
    // Three channels where the CMYK conversion wants four.
    assert!(check_channels(3, 4, "Input must be a 4-channel CMYK image").is_err());
    // Four channels where the HSL conversion back wants three.
    assert!(check_channels(4, 3, "Input must be a 3-channel HSL image").is_err());
}

#[test]
fn test_split_merge() {
    // Three single-channel 1x2 planes merge into a 3x1x2 image.
    let planes = vec![[1, 1, 2], [1, 1, 2], [1, 1, 2]];
    assert_eq!(planes.len(), 3);
    assert_eq!(merged_shape(&planes).unwrap(), [3, 1, 2]);
}

fn invalid_text<T: std::fmt::Debug>(r: Result<T, IrisError>) -> String {
    match r {
        Err(IrisError::InvalidParameter(m)) => m,
        other => panic!("unexpected {:?}", other),
    }
}

#[test]
fn check_messages() {
    assert_eq!(invalid_text(check_odd_kernel(4)), "Kernel size must be odd");
    assert_eq!(invalid_text(check_kernel_nonempty(0, 0)), "Kernel must be non-empty");
    assert_eq!(invalid_text(merged_shape(&Vec::new())), "At least one channel is required");
    assert_eq!(invalid_text(check_inpaint_mask([3, 4, 4], [2, 4, 4])), "mask must have exactly 1 channel");
    assert_eq!(invalid_text(tile_layout(8, 8, 0)), "grid_size must be > 0");
    assert_eq!(invalid_text(tile_layout(2, 8, 4)), "Image too small for given grid_size");
    assert_eq!(invalid_text(check_pyr_down(1, 4)), "Image too small for pyr_down (need at least 2x2)");
}
