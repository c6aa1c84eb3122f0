use neco::types_and_values::bit_vector::BitVector;

#[test]
fn bits_come_out_at_the_end_they_went_in() {
    let mut bits = BitVector::new();
    assert_eq!(bits.len(), 0);
    assert_eq!(bits.lsb(), None);
    assert_eq!(bits.msb(), None);
    assert_eq!(bits.pop_lsb(), None);
    assert_eq!(bits.pop_msb(), None);
    bits.push_msb(true);
    bits.push_msb(false);
    bits.push_lsb(false);
    bits.push_lsb(true);
    // From the least significant bit: true, false, true, false.
    assert_eq!(bits.len(), 4);
    assert_eq!(bits.lsb(), Some(&true));
    assert_eq!(bits.msb(), Some(&false));
    assert_eq!(bits.pop_lsb(), Some(true));
    assert_eq!(bits.pop_msb(), Some(false));
    assert_eq!(bits.len(), 2);
    assert_eq!(bits.lsb(), Some(&false));
    assert_eq!(bits.msb(), Some(&true));
    assert_eq!(bits.pop_msb(), Some(true));
    assert_eq!(bits.pop_lsb(), Some(false));
    assert_eq!(bits.len(), 0);
}
