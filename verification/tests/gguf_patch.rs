use eullm::gguf_patch::{needs_patch, patch_gguf_if_needed, scalar_size, ScanError};

const KEY: &str = "qwen35.rope.dimension_sections";

fn put_string(b: &mut Vec<u8>, s: &str) {
    b.extend_from_slice(&(s.len() as u64).to_le_bytes());
    b.extend_from_slice(s.as_bytes());
}

/// A file with one array of 32-bit integers under `key`, one tensor, and four
/// bytes of tensor data.
fn file(key: &str, elements: &[u32]) -> Vec<u8> {
    let mut b = Vec::new();
    b.extend_from_slice(b"GGUF");
    b.extend_from_slice(&3u32.to_le_bytes());
    b.extend_from_slice(&1u64.to_le_bytes());
    b.extend_from_slice(&1u64.to_le_bytes());
    put_string(&mut b, key);
    b.extend_from_slice(&9u32.to_le_bytes());
    b.extend_from_slice(&4u32.to_le_bytes());
    b.extend_from_slice(&(elements.len() as u64).to_le_bytes());
    for e in elements {
        b.extend_from_slice(&e.to_le_bytes());
    }
    put_string(&mut b, "t");
    b.extend_from_slice(&1u32.to_le_bytes());
    b.extend_from_slice(&1u64.to_le_bytes());
    b.extend_from_slice(&0u32.to_le_bytes());
    b.extend_from_slice(&0u64.to_le_bytes());
    while b.len() % 32 != 0 {
        b.push(0);
    }
    b.extend_from_slice(&[1, 2, 3, 4]);
    b
}

#[test]
fn a_short_array_is_filled_with_zeros() {
    let data = file(KEY, &[5, 6, 7]);
    assert_eq!(needs_patch(&data), Ok(true));
    let p = patch_gguf_if_needed(&data).unwrap().unwrap();
    assert_eq!(p.header.len() % 32, 0);
    let mut whole = p.header.clone();
    whole.extend_from_slice(&data[p.data_start as usize..]);
    assert_eq!(whole, file(KEY, &[5, 6, 7, 0]));
    assert_eq!(needs_patch(&whole), Ok(false));
}

#[test]
fn a_file_that_is_right_is_left_alone() {
    assert_eq!(patch_gguf_if_needed(&file(KEY, &[1, 2, 3, 4])).unwrap(), None);
    assert_eq!(patch_gguf_if_needed(&file("other.key", &[1])).unwrap(), None);
    assert_eq!(patch_gguf_if_needed(b"not a gguf file at all").unwrap(), None);
}

#[test]
fn a_file_that_ends_early_is_an_error() {
    let data = file(KEY, &[5, 6, 7]);
    assert_eq!(needs_patch(&data[..2]), Err(ScanError::Short));
    assert_eq!(needs_patch(&data[..40]), Err(ScanError::Short));
    assert!(patch_gguf_if_needed(&data[..20]).is_err());
}

#[test]
fn only_the_leading_bytes_decide() {
    let mut data = file(KEY, &[5, 6, 7]);
    let before = patch_gguf_if_needed(&data).unwrap();
    data.extend_from_slice(&[9; 100]);
    assert_eq!(patch_gguf_if_needed(&data).unwrap(), before);
}

#[test]
fn scalars_have_their_sizes() {
    let sizes: Vec<u64> = (0..14).map(scalar_size).collect();
    assert_eq!(sizes, vec![1, 1, 2, 2, 4, 4, 4, 1, 0, 0, 8, 8, 8, 0]);
}
