use iris::features::{
    fast_arc_length, generate_brief_pattern, tree_permutation, FeatureDetector, FeatureType, FlannMatcher,
};

#[test]
fn brief_pattern_first_pairs() {
    let p = generate_brief_pattern();
    assert_eq!(p[0], (2, 0, 3, -4));
    assert_eq!(p[1], (-15, -6, -8, 12));
    assert_eq!(p[2], (-7, 5, 6, 4));
    for &(a, b, c, d) in p.iter() {
        for v in [a, b, c, d] {
            assert!((-15..=15).contains(&v));
        }
    }
    assert_eq!(generate_brief_pattern(), p);
}

#[test]
fn fast_arc_counts_wrapping_runs() {
    let mut f = [false; 16];
    assert_eq!(fast_arc_length(&f), 0);
    for i in 0..5 {
        f[i] = true;
    }
    assert_eq!(fast_arc_length(&f), 5);
    let mut g = [false; 16];
    for i in [13, 14, 15, 0, 1, 2, 3, 4, 5] {
        g[i] = true;
    }
    assert_eq!(fast_arc_length(&g), 9);
    assert_eq!(fast_arc_length(&[true; 16]), 32);
}

#[test]
fn tree_permutation_values() {
    assert_eq!(tree_permutation(5, 0), vec![2, 1, 0, 3, 4]);
    assert_eq!(tree_permutation(5, 1), vec![1, 2, 4, 0, 3]);
    assert_eq!(tree_permutation(1, 3), vec![0]);
    assert!(tree_permutation(0, 3).is_empty());
}

#[test]
fn tree_permutation_is_a_permutation() {
    for t in 0..6u32 {
        let mut p = tree_permutation(37, t);
        p.sort();
        assert_eq!(p, (0..37).collect::<Vec<usize>>());
    }
}

#[test]
fn flann_builders() {
    let m = FlannMatcher::new();
    assert_eq!((m.k, m.trees, m.checks), (2, 5, 32));
    let m = FlannMatcher::default().with_k(3).with_trees(7).with_checks(64);
    assert_eq!((m.k, m.trees, m.checks), (3, 7, 64));
}

#[test]
fn feature_detector_builders() {
    let d = FeatureDetector::new(FeatureType::ORB);
    assert!(matches!(d.detector_type, FeatureType::ORB));
    assert_eq!(d.max_features, 500);
    let d = d.with_max_features(50);
    assert_eq!(d.max_features, 50);
}
