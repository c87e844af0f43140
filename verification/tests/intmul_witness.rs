use binius64::intmul_witness::two_valued_field_buffer;

#[test]
fn selects_by_bit_offset() {
    let exponents: Vec<u64> = vec![0b01, 0b10, 0b11, 0b00];
    let buf = two_valued_field_buffer(0, &exponents, [7, 9], 2);
    assert_eq!(buf.log_len, 2);
    assert_eq!(buf.log_width, 2);
    assert_eq!(buf.to_scalars(), vec![9, 7, 9, 7]);
    let buf = two_valued_field_buffer(1, &exponents, [7, 9], 2);
    assert_eq!(buf.to_scalars(), vec![7, 9, 9, 7]);
}

#[test]
fn spans_several_packed_elements() {
    let exponents: Vec<u8> = (0u8..8).collect();
    let buf = two_valued_field_buffer(2, &exponents, [1, 5], 1);
    assert_eq!(buf.packed, vec![vec![1, 1], vec![1, 1], vec![5, 5], vec![5, 5]]);
    assert_eq!(buf.to_scalars(), vec![1, 1, 1, 1, 5, 5, 5, 5]);
}

#[test]
fn pads_a_short_buffer_with_zero() {
    let exponents: Vec<u32> = vec![1, 0];
    let buf = two_valued_field_buffer(0, &exponents, [3, 4], 3);
    assert_eq!(buf.log_len, 1);
    assert_eq!(buf.packed, vec![vec![4, 3, 0, 0, 0, 0, 0, 0]]);
}

#[test]
fn highest_bit_of_the_word() {
    let exponents: Vec<u64> = vec![1u64 << 63, 1];
    let buf = two_valued_field_buffer(63, &exponents, [0, 1], 0);
    assert_eq!(buf.to_scalars(), vec![1, 0]);
}
