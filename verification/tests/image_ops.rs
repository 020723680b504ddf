use iris::error::IrisError;
use iris::image_ops::{
    combine_bytes, invert_bytes, BitOp, check_same_shape, crop_shape, grayscale_plan, nearest_indices, pack_rgb, preview_channels, resize_plan, rgb_plan,
    rotated_shape, rotation_for, save_channels, unpack_rgb, Rotation,
};

#[test]
fn nearest_indices_scale() {
    assert_eq!(nearest_indices(4, 2), vec![0, 0, 1, 1]);
    assert_eq!(nearest_indices(2, 5), vec![0, 2]);
    assert_eq!(nearest_indices(3, 0), vec![0, 0, 0]);
}

#[test]
fn resize_plan_rejects_zero() {
    let (ys, xs) = resize_plan(4, 6, 3, 2).unwrap();
    assert_eq!(ys, vec![0, 2]);
    assert_eq!(xs, vec![0, 2, 4]);
    assert!(matches!(resize_plan(4, 6, 0, 2), Err(IrisError::InvalidParameter(_))));
    assert!(matches!(resize_plan(4, 6, 3, 0), Err(IrisError::InvalidParameter(_))));
}

#[test]
fn crop_shape_bounds() {
    assert_eq!(crop_shape(3, 10, 20, 5, 2, 15, 8).unwrap(), [3, 8, 15]);
    match crop_shape(3, 10, 20, 6, 2, 15, 8) {
        Err(IrisError::DimensionMismatch { expected, actual }) => {
            assert_eq!(expected, vec![3, 8, 15]);
            assert_eq!(actual, vec![3, 10, 20]);
        }
        other => panic!("unexpected {:?}", other),
    }
    assert!(crop_shape(1, 10, 20, 0, 3, 1, 8).is_err());
}

#[test]
fn rotation_angles() {
    assert!(matches!(rotation_for(0), Ok(Rotation::Identity)));
    assert!(matches!(rotation_for(360), Ok(Rotation::Identity)));
    assert!(matches!(rotation_for(90), Ok(Rotation::Clockwise90)));
    assert!(matches!(rotation_for(180), Ok(Rotation::Half)));
    assert!(matches!(rotation_for(270), Ok(Rotation::Clockwise270)));
    assert!(matches!(rotation_for(45), Err(IrisError::InvalidParameter(_))));
    assert_eq!(rotated_shape([3, 10, 20], Rotation::Clockwise90), [3, 20, 10]);
    assert_eq!(rotated_shape([3, 10, 20], Rotation::Half), [3, 10, 20]);
    assert_eq!(rotated_shape([1, 4, 7], Rotation::Clockwise270), [1, 7, 4]);
    assert_eq!(rotated_shape([1, 4, 7], Rotation::Identity), [1, 4, 7]);
}

#[test]
fn channel_plans() {
    assert!(matches!(grayscale_plan(1), Ok(false)));
    assert!(matches!(grayscale_plan(3), Ok(true)));
    assert!(matches!(grayscale_plan(4), Ok(true)));
    assert!(matches!(grayscale_plan(2), Err(IrisError::Tensor(_))));
    assert!(matches!(grayscale_plan(0), Err(IrisError::Tensor(_))));
    assert!(matches!(rgb_plan(3), Ok(false)));
    assert!(matches!(rgb_plan(1), Ok(true)));
    assert!(matches!(rgb_plan(4), Err(IrisError::Tensor(_))));
}

#[test]
fn same_shape_check() {
    assert!(check_same_shape([3, 4, 5], [3, 4, 5]).is_ok());
    match check_same_shape([3, 4, 5], [1, 4, 5]) {
        Err(IrisError::DimensionMismatch { expected, actual }) => {
            assert_eq!(expected, vec![3, 4, 5]);
            assert_eq!(actual, vec![1, 4, 5]);
        }
        other => panic!("unexpected {:?}", other),
    }
}

#[test]
fn test_image_ops() {
    // An 8x8 three-channel image.
    assert_eq!(crop_shape(3, 8, 8, 2, 2, 4, 4).unwrap(), [3, 4, 4]);
    let rot = rotation_for(90).unwrap();
    assert_eq!(rotated_shape([3, 8, 8], rot), [3, 8, 8]);
    // Grayscale combines the three channels into one.
    assert!(matches!(grayscale_plan(3), Ok(true)));
    // A single channel is replicated into three.
    assert!(matches!(rgb_plan(1), Ok(true)));
}

#[test]
fn pack_and_unpack_rgb() {
    // Two pixels, three planes.
    let planes = vec![10, 11, 20, 21, 30, 31];
    let packed = pack_rgb(&planes, 2, [0, 1, 2]);
    assert_eq!(packed, vec![10, 20, 30, 11, 21, 31]);
    assert_eq!(unpack_rgb(&packed, 2), planes);
    // One plane shown as gray.
    assert_eq!(pack_rgb(&vec![5, 6], 2, [0, 0, 0]), vec![5, 5, 5, 6, 6, 6]);
    assert!(pack_rgb(&Vec::new(), 0, [0, 1, 2]).is_empty());
}

#[test]
fn channel_choices_for_saving_and_showing() {
    assert_eq!(save_channels(1), [0, 0, 0]);
    assert_eq!(save_channels(2), [0, 1, 0]);
    assert_eq!(save_channels(3), [0, 1, 2]);
    assert_eq!(save_channels(4), [0, 1, 2]);
    assert_eq!(preview_channels(3), Some([0, 1, 2]));
    assert_eq!(preview_channels(1), Some([0, 0, 0]));
    assert_eq!(preview_channels(2), None);
    assert_eq!(preview_channels(4), None);
}

#[test]
fn bytewise_logic() {
    let a = vec![0b1100u8, 0xff, 0x00];
    let b = vec![0b1010u8, 0x0f, 0x00];
    assert_eq!(combine_bytes(&a, &b, BitOp::And), vec![0b1000, 0x0f, 0x00]);
    assert_eq!(combine_bytes(&a, &b, BitOp::Or), vec![0b1110, 0xff, 0x00]);
    assert_eq!(combine_bytes(&a, &b, BitOp::Xor), vec![0b0110, 0xf0, 0x00]);
    assert_eq!(invert_bytes(&a), vec![0xf3, 0x00, 0xff]);
    assert!(combine_bytes(&Vec::new(), &Vec::new(), BitOp::And).is_empty());
}

#[test]
fn plan_messages() {
    match resize_plan(4, 4, 0, 2) {
        Err(IrisError::InvalidParameter(m)) => assert_eq!(m, "Dimensions must be greater than zero"),
        _ => panic!("expected an error"),
    }
    match rotation_for(45) {
        Err(IrisError::InvalidParameter(m)) => assert_eq!(m, "Only 90, 180, 270 degrees rotations are supported"),
        _ => panic!("expected an error"),
    }
    match grayscale_plan(2) {
        Err(IrisError::Tensor(m)) => assert_eq!(m, "Cannot convert image with less than 3 channels to grayscale"),
        _ => panic!("expected an error"),
    }
    match rgb_plan(4) {
        Err(IrisError::Tensor(m)) => assert_eq!(m, "Input image must be single-channel to convert to RGB"),
        _ => panic!("expected an error"),
    }
}
