use iris::error::IrisError;
use iris::histogram::{
    check_joint_histogram, clip_histogram, cumulative_counts, first_positive_count, histogram_counts, joint_counts,
};

#[test]
fn histogram_counts_per_channel() {
    // Two channels of four values each.
    let bins: Vec<u8> = vec![0, 0, 255, 7, 1, 1, 1, 1];
    let hist = histogram_counts(&bins, 2, 4);
    assert_eq!(hist.len(), 2);
    assert_eq!(hist[0].len(), 256);
    assert_eq!((hist[0][0], hist[0][7], hist[0][255], hist[0][1]), (2, 1, 1, 0));
    assert_eq!(hist[1][1], 4);
    for h in &hist {
        assert_eq!(h.iter().map(|&v| v as u64).sum::<u64>(), 4);
    }
}

#[test]
fn histogram_of_empty_planes() {
    let hist = histogram_counts(&Vec::new(), 3, 0);
    assert_eq!(hist.len(), 3);
    assert!(hist.iter().all(|h| h.len() == 256 && h.iter().all(|&v| v == 0)));
    assert!(histogram_counts(&Vec::new(), 0, 10).is_empty());
}

#[test]
fn cumulative_and_first_positive() {
    let mut hist = vec![0u32; 256];
    hist[3] = 2;
    hist[10] = 5;
    hist[255] = 1;
    let cdf = cumulative_counts(&hist);
    assert_eq!(cdf.len(), 256);
    assert_eq!((cdf[0], cdf[2], cdf[3], cdf[9], cdf[10], cdf[254], cdf[255]), (0, 0, 2, 2, 7, 7, 8));
    assert_eq!(first_positive_count(&cdf), 2);
    assert_eq!(first_positive_count(&vec![0u32; 256]), 0);
    assert!(cumulative_counts(&Vec::new()).is_empty());
}

#[test]
fn joint_histogram_counts_pairs() {
    let xs = vec![0, 1, 1, 2];
    let ys = vec![0, 2, 2, 1];
    let hist = joint_counts(&xs, &ys, 3);
    assert_eq!(hist.len(), 9);
    assert_eq!(hist, vec![1, 0, 0, 0, 0, 1, 0, 2, 0]);
}

#[test]
fn joint_histogram_argument_checks() {
    assert!(check_joint_histogram(3, 0, 2, 16).is_ok());
    assert!(matches!(check_joint_histogram(3, 0, 2, 0), Err(IrisError::InvalidParameter(_))));
    assert!(matches!(check_joint_histogram(3, usize::MAX, 0, 0), Err(IrisError::InvalidParameter(_))));
    match check_joint_histogram(3, 4, 1, 8) {
        Err(IrisError::DimensionMismatch { expected, actual }) => {
            assert_eq!(expected, vec![3]);
            assert_eq!(actual, vec![5]);
        }
        other => panic!("unexpected {:?}", other),
    }
}

#[test]
fn test_histogram_operations() {
    // A 2x4 single-channel image, binned as the image type bins it.
    let vals = [0.1f32, 0.2, 0.3, 0.4, 0.5, 0.6, 0.7, 0.8];
    let bins: Vec<u8> = vals.iter().map(|&v| (v.clamp(0.0, 1.0) * 255.0) as u8).collect();
    let hists = histogram_counts(&bins, 1, 8);
    assert_eq!(hists.len(), 1);
    assert_eq!(hists[0].len(), 256);
    let cdf = cumulative_counts(&hists[0]);
    assert_eq!(cdf[255], 8);
    assert_eq!(first_positive_count(&cdf), 1);
}

#[test]
fn test_calc_hist_2d() {
    // Two 4x4 channels: a rising ramp and its reverse, in four bins each.
    let n = 4usize;
    let bin = |v: f32| ((v.clamp(0.0, 1.0) * (n as f32 - 1.0)).round() as usize).min(n - 1);
    let mut xs = Vec::new();
    let mut ys = Vec::new();
    for i in 0..16 {
        let v = i as f32 / 15.0;
        xs.push(bin(v));
        ys.push(bin(1.0 - v));
    }
    assert!(check_joint_histogram(2, 0, 1, n).is_ok());
    let hist = joint_counts(&xs, &ys, n);
    assert_eq!(hist.len(), n * n);
    assert!(hist.iter().any(|&v| v > 0));
    assert_eq!(hist.iter().map(|&v| v as u64).sum::<u64>(), 16);
}

#[test]
fn clipping_spreads_the_excess() {
    let mut hist = vec![0u32; 256];
    hist[0] = 10;
    hist[1] = 3;
    let out = clip_histogram(&hist, 4);
    assert_eq!(&out[..7], &[5, 4, 1, 1, 1, 1, 0]);
    assert!(out[7..].iter().all(|&v| v == 0));
    assert_eq!(out.iter().map(|&v| v as u64).sum::<u64>(), 13);

    let mut big = vec![0u32; 256];
    big[0] = 600;
    let out = clip_histogram(&big, 10);
    assert_eq!(out[0], 13);
    assert!(out[1..78].iter().all(|&v| v == 3));
    assert!(out[78..].iter().all(|&v| v == 2));
    assert_eq!(out.iter().map(|&v| v as u64).sum::<u64>(), 600);

    // Nothing above the limit: unchanged.
    assert_eq!(clip_histogram(&hist, 10), hist);
}

#[test]
fn joint_histogram_needs_bins() {
    match check_joint_histogram(2, 0, 1, 0) {
        Err(IrisError::InvalidParameter(m)) => assert_eq!(m, "bins must be > 0"),
        other => panic!("unexpected {:?}", other),
    }
}
