use iris::edges::hysteresis;

#[test]
fn hysteresis_links_weak_to_strong() {
    assert_eq!(hysteresis(&vec![2, 1, 0], 3, 1), vec![true, true, false]);
    assert_eq!(hysteresis(&vec![1, 1, 0], 3, 1), vec![false, false, false]);
    assert_eq!(hysteresis(&vec![2, 0, 1], 3, 1), vec![true, false, false]);
}

#[test]
fn hysteresis_follows_diagonal_chains() {
    // 3 x 3: strong corner, weak pixels along the diagonal, a weak pixel cut off.
    let labels = vec![
        2, 0, 1, //
        0, 1, 0, //
        0, 0, 1,
    ];
    assert_eq!(
        hysteresis(&labels, 3, 3),
        vec![true, false, true, false, true, false, false, false, true]
    );
    let isolated = vec![
        1, 0, 0, //
        0, 0, 0, //
        0, 0, 2,
    ];
    assert_eq!(
        hysteresis(&isolated, 3, 3),
        vec![false, false, false, false, false, false, false, false, true]
    );
}

#[test]
fn hysteresis_empty_grid() {
    assert!(hysteresis(&Vec::new(), 0, 0).is_empty());
}
