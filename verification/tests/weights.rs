use iris::detectors::WeightLoader;
use iris::error::IrisError;
use iris::weights::{f32_words, two_dimensional_weights, TensorEntry};

fn safetensors_buffer(header: &str, data: &[u8]) -> Vec<u8> {
    let mut out = (header.len() as u64).to_le_bytes().to_vec();
    out.extend_from_slice(header.as_bytes());
    out.extend_from_slice(data);
    out
}

#[test]
fn words_of_a_flat_stream() {
    let data = [1u8, 2, 3, 4, 5, 6, 7, 8, 9];
    assert_eq!(f32_words(&data, 2), vec![[1, 2, 3, 4], [5, 6, 7, 8]]);
    // A short stream is padded with zero words; the trailing byte is ignored.
    assert_eq!(f32_words(&data, 3), vec![[1, 2, 3, 4], [5, 6, 7, 8], [0, 0, 0, 0]]);
    // A long stream is cut to the words asked for.
    assert_eq!(f32_words(&data, 1), vec![[1, 2, 3, 4]]);
    assert!(f32_words(&data, 0).is_empty());
    assert_eq!(f32_words(&[], 2), vec![[0, 0, 0, 0], [0, 0, 0, 0]]);
}

#[test]
fn words_hold_native_floats() {
    let mut data = Vec::new();
    for v in [1.5f32, -2.0, 0.25] {
        data.extend_from_slice(&v.to_ne_bytes());
    }
    let words = f32_words(&data, 4);
    let vals: Vec<f32> = words.iter().map(|&w| f32::from_ne_bytes(w)).collect();
    assert_eq!(vals, vec![1.5, -2.0, 0.25, 0.0]);
}

#[test]
fn only_matrices_are_kept() {
    let entries = vec![
        TensorEntry { name: "bias".to_owned(), shape: vec![3], data: vec![0; 12] },
        TensorEntry { name: "w".to_owned(), shape: vec![2, 1], data: vec![1, 2, 3, 4, 5, 6, 7, 8] },
        TensorEntry { name: "cube".to_owned(), shape: vec![1, 1, 1], data: vec![9; 4] },
        TensorEntry { name: "v".to_owned(), shape: vec![1, 2], data: vec![7, 7, 7, 7] },
    ];
    let out = two_dimensional_weights(&entries);
    assert_eq!(out.len(), 2);
    assert_eq!((out[0].name.as_str(), out[0].rows, out[0].cols), ("w", 2, 1));
    assert_eq!(out[0].words, vec![[1, 2, 3, 4], [5, 6, 7, 8]]);
    assert_eq!((out[1].name.as_str(), out[1].rows, out[1].cols), ("v", 1, 2));
    assert_eq!(out[1].words, vec![[7, 7, 7, 7], [0, 0, 0, 0]]);
}

#[test]
fn parse_a_safetensors_buffer() {
    let mut data = Vec::new();
    for v in [1.0f32, 2.0, 3.0, 4.0, 5.0, 6.0] {
        data.extend_from_slice(&v.to_le_bytes());
    }
    let header = "{\"w\":{\"dtype\":\"F32\",\"shape\":[2,2],\"data_offsets\":[0,16]},\"b\":{\"dtype\":\"F32\",\"shape\":[2],\"data_offsets\":[16,24]}}";
    let buf = safetensors_buffer(header, &data);
    let out = WeightLoader::parse_safetensors(&buf).unwrap();
    assert_eq!(out.len(), 1);
    assert_eq!(out[0].name, "w");
    assert_eq!((out[0].rows, out[0].cols), (2, 2));
    let vals: Vec<f32> = out[0].words.iter().map(|&w| f32::from_le_bytes(w)).collect();
    assert_eq!(vals, vec![1.0, 2.0, 3.0, 4.0]);
}

#[test]
fn refused_buffer_is_a_load_error() {
    match WeightLoader::parse_safetensors(&[1, 2, 3]) {
        Err(IrisError::ModelLoad(m)) => assert!(m.starts_with("Safetensors deserialization failed: ")),
        other => panic!("unexpected {:?}", other.map(|v| v.len())),
    }
    // A header whose data does not cover the buffer.
    let buf = safetensors_buffer("{\"w\":{\"dtype\":\"F32\",\"shape\":[1,1],\"data_offsets\":[0,4]}}", &[0; 8]);
    assert!(matches!(WeightLoader::parse_safetensors(&buf), Err(IrisError::ModelLoad(_))));
}

#[test]
fn header_offsets_past_the_address_space_are_refused() {
    // Eight contiguous tensors whose data would end just below 2^64.
    let size: u64 = (1u64 << 61) - 1;
    let mut parts = Vec::new();
    for i in 0..8u64 {
        parts.push(format!(
            "\"t{}\":{{\"dtype\":\"U8\",\"shape\":[{}],\"data_offsets\":[{},{}]}}",
            i,
            size,
            i * size,
            (i + 1) * size
        ));
    }
    let header = format!("{{{}}}", parts.join(","));
    let buf = safetensors_buffer(&header, &[]);
    match WeightLoader::parse_safetensors(&buf) {
        Err(IrisError::ModelLoad(m)) => assert!(m.starts_with("Safetensors deserialization failed: ")),
        other => panic!("unexpected {:?}", other.map(|v| v.len())),
    }
}

#[test]
fn long_digit_runs_inside_strings_are_accepted() {
    // A tensor named by a long number, and a metadata value of digits.
    let name = "123456789012345678901234567890";
    let header = format!(
        "{{\"__metadata__\":{{\"id\":\"99999999999999999999999\"}},\"{}\":{{\"dtype\":\"U8\",\"shape\":[1,2],\"data_offsets\":[0,2]}}}}",
        name
    );
    let buf = safetensors_buffer(&header, &[7, 9]);
    let out = WeightLoader::parse_safetensors(&buf).unwrap();
    assert_eq!(out.len(), 1);
    assert_eq!(out[0].name, name);
    assert_eq!((out[0].rows, out[0].cols), (1, 2));
}

#[test]
fn escaped_quotes_keep_a_string_open() {
    let header = "{\"w\\\"99999999999999999999999\":{\"dtype\":\"U8\",\"shape\":[2,2],\"data_offsets\":[0,4]}}";
    let buf = safetensors_buffer(header, &[1, 2, 3, 4]);
    let out = WeightLoader::parse_safetensors(&buf).unwrap();
    assert_eq!(out.len(), 1);
    assert_eq!(out[0].name, "w\"99999999999999999999999");
    assert_eq!(out[0].words, vec![[1, 2, 3, 4], [0, 0, 0, 0], [0, 0, 0, 0], [0, 0, 0, 0]]);
}
