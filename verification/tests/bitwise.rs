use binius64::bitwise::BitSelector;

#[test]
fn test_bit_selector_on_sequential_integer_range() {
    let log_n = 10;

    let integers = (0u16..1 << log_n).collect::<Vec<_>>();

    for bit_offset in 0..log_n {
        let selector = BitSelector::new(bit_offset, &integers);

        for i in 0..1 << log_n {
            assert_eq!(selector.get(i), (i >> bit_offset) & 1 != 0);
        }
    }
}

#[test]
fn bit_selector_len_counts_integers() {
    let integers = vec![0u64, 1, 2, 3, 4];
    let selector = BitSelector::new(63, &integers);
    assert_eq!(selector.len(), 5);
    assert!(!selector.get(4));
}

#[test]
fn bit_selector_reads_the_top_bit_of_u8() {
    let bytes = vec![0x80u8, 0x7f];
    let selector = BitSelector::new(7, &bytes);
    assert!(selector.get(0));
    assert!(!selector.get(1));
}

#[test]
fn signed_and_wide_integers_select_twos_complement_bits() {
    let signed: Vec<i64> = vec![-1, -2, 0, i64::MIN];
    let low = BitSelector::new(0, &signed);
    assert_eq!((0..4).map(|i| low.get(i)).collect::<Vec<_>>(), vec![true, false, false, false]);
    let top = BitSelector::new(63, &signed);
    assert_eq!((0..4).map(|i| top.get(i)).collect::<Vec<_>>(), vec![true, true, false, true]);
    let small: Vec<i8> = vec![-128, 127];
    let sel = BitSelector::new(7, &small);
    assert!(sel.get(0));
    assert!(!sel.get(1));
    let wide: Vec<u128> = vec![1u128 << 127, 1];
    let sel = BitSelector::new(127, &wide);
    assert!(sel.get(0));
    assert!(!sel.get(1));
}
