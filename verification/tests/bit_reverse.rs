use binius64::bit_reverse::{
    bit_reverse_indices, bit_reverse_packed, bit_reverse_packed_naive, log2_strict, reverse_bits,
};
use binius64::packed_buffer::PackedBuffer;

#[test]
fn reverse_bits_of_small_values() {
    assert_eq!(reverse_bits(0b0011, 4), 0b1100);
    assert_eq!(reverse_bits(0b0001, 3), 0b100);
    assert_eq!(reverse_bits(0b110, 3), 0b011);
    assert_eq!(reverse_bits(5, 0), 0);
}

#[test]
fn reverse_bits_ignores_high_bits() {
    assert_eq!(reverse_bits(0b1_0001, 4), 0b1000);
}

#[test]
fn reverse_bits_full_width() {
    assert_eq!(reverse_bits(1, usize::BITS), 1usize << (usize::BITS - 1));
}

#[test]
fn bit_reverse_permutes_eight_elements() {
    let mut v = vec![0, 1, 2, 3, 4, 5, 6, 7];
    bit_reverse_indices(&mut v);
    assert_eq!(v, vec![0, 4, 2, 6, 1, 5, 3, 7]);
}

#[test]
fn bit_reverse_twice_is_identity() {
    let orig: Vec<String> = (0..16).map(|i| format!("e{i}")).collect();
    let mut v = orig.clone();
    bit_reverse_indices(&mut v);
    assert_ne!(v, orig);
    bit_reverse_indices(&mut v);
    assert_eq!(v, orig);
}

#[test]
fn bit_reverse_of_one_element() {
    let mut v = vec![42];
    bit_reverse_indices(&mut v);
    assert_eq!(v, vec![42]);
}

#[test]
fn log2_of_powers_of_two() {
    assert_eq!(log2_strict(1), 0);
    assert_eq!(log2_strict(1024), 10);
}

/// A deterministic buffer of `2^log_len` distinct-looking scalars in packed elements of
/// `2^log_width` lanes.
fn sample_buffer(log_width: usize, log_len: usize, seed: u128) -> PackedBuffer<u128> {
    let width = 1usize << log_width;
    let n_packed = if log_len < log_width { 1 } else { 1usize << (log_len - log_width) };
    let mut state = seed;
    let packed: Vec<Vec<u128>> = (0..n_packed)
        .map(|_| {
            (0..width)
                .map(|_| {
                    state = state
                        .wrapping_mul(0x2545_f491_4f6c_dd1d_9e37_79b9_7f4a_7c15)
                        .wrapping_add(0x1405_7b7e_f767_814f);
                    state
                })
                .collect()
        })
        .collect();
    PackedBuffer::new(log_width, log_len, packed).expect("consistent shape")
}

fn bit_reversed_scalars(scalars: &[u128], log_len: usize) -> Vec<u128> {
    (0..scalars.len()).map(|i| scalars[reverse_bits(i, log_len as u32)]).collect()
}

fn check_packed_equivalence(log_d: usize) {
    let orig = sample_buffer(2, log_d, log_d as u128 + 1);
    let mut optimized = sample_buffer(2, log_d, log_d as u128 + 1);
    let mut naive = sample_buffer(2, log_d, log_d as u128 + 1);
    bit_reverse_packed(&mut optimized);
    bit_reverse_packed_naive(&mut naive);
    assert_eq!(optimized.to_scalars(), naive.to_scalars(), "Mismatch at log_d={}", log_d);
    assert_eq!(
        optimized.to_scalars(),
        bit_reversed_scalars(&orig.to_scalars(), log_d),
        "Mismatch at log_d={}",
        log_d
    );
}

#[test]
fn test_bit_reverse_packed_equivalence_below_threshold() {
    check_packed_equivalence(3);
}

#[test]
fn test_bit_reverse_packed_equivalence_at_threshold() {
    check_packed_equivalence(4);
}

#[test]
fn test_bit_reverse_packed_equivalence_above_threshold() {
    check_packed_equivalence(8);
}

#[test]
fn bit_reverse_packed_other_widths() {
    for log_width in 0..4 {
        for log_len in 0..10 {
            let orig = sample_buffer(log_width, log_len, 7);
            let mut b = sample_buffer(log_width, log_len, 7);
            bit_reverse_packed(&mut b);
            assert_eq!(b.log_len, log_len);
            assert_eq!(b.log_width, log_width);
            assert_eq!(b.to_scalars(), bit_reversed_scalars(&orig.to_scalars(), log_len));
            bit_reverse_packed(&mut b);
            assert_eq!(b.to_scalars(), orig.to_scalars());
        }
    }
}

#[test]
fn bit_reverse_packed_moves_whole_lanes() {
    // 16 scalars 0..16 in four packed elements of four lanes.
    let packed: Vec<Vec<u128>> = (0..4).map(|p| (0..4).map(|k| 4 * p + k).collect()).collect();
    let mut b = PackedBuffer::new(2, 4, packed).unwrap();
    bit_reverse_packed(&mut b);
    assert_eq!(
        b.packed,
        vec![vec![0, 8, 4, 12], vec![2, 10, 6, 14], vec![1, 9, 5, 13], vec![3, 11, 7, 15]]
    );
}

#[test]
fn packed_buffer_rejects_inconsistent_shapes() {
    assert!(PackedBuffer::new(2, 4, vec![vec![0u128; 4]; 3]).is_none());
    assert!(PackedBuffer::new(2, 4, vec![vec![0u128; 4], vec![0; 4], vec![0; 3], vec![0; 4]]).is_none());
    assert!(PackedBuffer::new(2, 1, vec![vec![0u128; 4], vec![0; 4]]).is_none());
    assert!(PackedBuffer::new(usize::BITS as usize, 1, vec![vec![0u128; 4]]).is_none());
    assert!(PackedBuffer::new(2, 1, vec![vec![0u128; 4]]).is_some());
}

#[test]
fn packed_buffer_get_and_set() {
    let packed: Vec<Vec<u128>> = (0..2).map(|p| (0..4).map(|k| 4 * p + k).collect()).collect();
    let mut b = PackedBuffer::new(2, 3, packed).unwrap();
    assert_eq!(b.len(), 8);
    assert_eq!(b.get(5), 5);
    b.set(5, 50);
    assert_eq!(b.get(5), 50);
    assert_eq!(b.packed[1], vec![4, 50, 6, 7]);
    assert_eq!(b.to_scalars(), vec![0, 1, 2, 3, 4, 50, 6, 7]);
}

#[test]
fn small_buffer_uses_low_lanes() {
    let mut b = PackedBuffer::new(3, 2, vec![vec![10u128, 11, 12, 13, 14, 15, 16, 17]]).unwrap();
    assert_eq!(b.to_scalars(), vec![10, 11, 12, 13]);
    bit_reverse_packed(&mut b);
    assert_eq!(b.to_scalars(), vec![10, 12, 11, 13]);
    assert_eq!(&b.packed[0][4..], &[14, 15, 16, 17]);
}

#[test]
fn set_leaves_padding_lanes_alone() {
    let mut b = PackedBuffer::new(2, 1, vec![vec![1u128, 2, 3, 4]]).unwrap();
    b.set(1, 20);
    assert_eq!(b.packed, vec![vec![1, 20, 3, 4]]);
    bit_reverse_packed_naive(&mut b);
    assert_eq!(b.packed, vec![vec![1, 20, 3, 4]]);
}
