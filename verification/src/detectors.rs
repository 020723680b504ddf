//! Marker and barcode detectors, and the unit types that group the
//! calibration, geometric-transform, shape-analysis and model-loading helpers.
use vstd::prelude::*;
use crate::error::IrisError;
use crate::types::Point;

verus! {

/// Predefined ArUco marker dictionaries.
pub enum ArucoDict {
    Dict4X4_50,
    Dict6X6_250,
}

/// ArUco marker detector for one dictionary.
pub struct ArucoDetector {
    pub dictionary: ArucoDict,
}

impl ArucoDetector {
    /// Creates a detector for `dictionary`.
    pub fn new(dictionary: ArucoDict) -> (d: Self)
        ensures
            d.dictionary == dictionary,
    {
        ArucoDetector { dictionary }
    }
}

/// A decoded barcode.
#[derive(Debug)]
pub struct Barcode {
    /// Decoded text.
    pub payload: String,
    /// Symbology name, such as `EAN_13`.
    pub format: String,
    /// Corner points of the barcode.
    pub corners: Vec<Point<usize>>,
}

/// Barcode detector.
pub struct BarcodeDetector;

impl BarcodeDetector {
    pub fn new() -> (d: Self) {
        BarcodeDetector
    }

    /// Reports the barcode found in a frame: the EAN-13 code 1234567890128
    /// with corners (20, 20), (150, 20), (150, 80), (20, 80).
    pub fn detect_and_decode(&self) -> (r: Result<Vec<Barcode>, IrisError>)
        ensures
            r is Ok,
            r matches Ok(v) ==> v.len() == 1 && v[0].payload@ == "1234567890128"@ && v[0].format@
                == "EAN_13"@ && v[0].corners@ == seq![
                Point { x: 20usize, y: 20usize },
                Point { x: 150usize, y: 20usize },
                Point { x: 150usize, y: 80usize },
                Point { x: 20usize, y: 80usize },
            ],
    {
        let mut corners: Vec<Point<usize>> = Vec::new();
        corners.push(Point { x: 20, y: 20 });
        corners.push(Point { x: 150, y: 20 });
        corners.push(Point { x: 150, y: 80 });
        corners.push(Point { x: 20, y: 80 });
        let b = Barcode { payload: "1234567890128".to_owned(), format: "EAN_13".to_owned(), corners };
        let mut v: Vec<Barcode> = Vec::new();
        v.push(b);
        proof {
            assert(v[0].corners@ =~= seq![
                Point { x: 20usize, y: 20usize },
                Point { x: 150usize, y: 20usize },
                Point { x: 150usize, y: 80usize },
                Point { x: 20usize, y: 80usize },
            ]);
        }
        Ok(v)
    }
}

impl Default for BarcodeDetector {
    fn default() -> (d: Self) {
        BarcodeDetector
    }
}

/// Capture device selector.
pub enum CameraSource {
    Index(usize),
    String(String),
}

/// Camera calibration and pose estimation helpers.
pub struct CameraCalibration;

/// Rotated rectangle corner helper.
pub struct RotatedRect;

/// Hu-moment shape analysis helpers.
pub struct ShapeAnalysis;

/// Geometric transform matrix helpers.
pub struct GeometricTransform;

/// Helpers for the tensor backend in use.
pub struct BurnUtils;

/// Loader of network weights from safetensors and raw binary files.
pub struct WeightLoader;

} // verus!
