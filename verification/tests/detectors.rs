use iris::detectors::{ArucoDetector, ArucoDict, BarcodeDetector};
use iris::types::Point;

#[test]
fn test_barcode_detector() {
    let detector = BarcodeDetector;
    let barcodes = detector.detect_and_decode().unwrap();
    assert_eq!(barcodes.len(), 1);
    assert_eq!(barcodes[0].payload, "1234567890128");
    assert_eq!(barcodes[0].format, "EAN_13");
}

#[test]
fn barcode_corners() {
    let detector = BarcodeDetector::new();
    let barcodes = detector.detect_and_decode().unwrap();
    assert_eq!(
        barcodes[0].corners,
        vec![Point::new(20, 20), Point::new(150, 20), Point::new(150, 80), Point::new(20, 80)]
    );
    let d2 = BarcodeDetector::default();
    assert_eq!(d2.detect_and_decode().unwrap().len(), 1);
}

#[test]
fn aruco_detector_keeps_dictionary() {
    let d = ArucoDetector::new(ArucoDict::Dict6X6_250);
    assert!(matches!(d.dictionary, ArucoDict::Dict6X6_250));
    let d = ArucoDetector::new(ArucoDict::Dict4X4_50);
    assert!(matches!(d.dictionary, ArucoDict::Dict4X4_50));
}
