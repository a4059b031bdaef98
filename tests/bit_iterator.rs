use audio_stego::bit_iterator::BitIterator;

#[test]
fn three_bit_group_of_one_byte() {
    let mut it = BitIterator::new(vec![0b0000_0101], 3);
    assert_eq!(it.next(), Some(true));
    assert_eq!(it.next(), Some(false));
    assert_eq!(it.next(), Some(true));
    assert_eq!(it.next(), None);
}

#[test]
fn exhausted_iterator_stays_exhausted() {
    let mut it = BitIterator::new(vec![0xff], 2);
    assert_eq!(it.next(), Some(true));
    assert_eq!(it.next(), Some(true));
    assert_eq!(it.next(), None);
    assert_eq!(it.next(), None);
    assert_eq!(it.next(), None);
}

#[test]
fn empty_source_ends_at_once() {
    let mut it = BitIterator::new(Vec::new(), 8);
    assert_eq!(it.next(), None);
    let mut cyc = BitIterator::cycling(Vec::new(), 8);
    assert_eq!(cyc.next(), None);
}

#[test]
fn full_bytes_least_significant_first() {
    let mut it = BitIterator::new(vec![0b1000_0001, 0b0000_0010], 8);
    let mut bits = Vec::new();
    while let Some(b) = it.next() {
        bits.push(b);
    }
    assert_eq!(
        bits,
        vec![
            true, false, false, false, false, false, false, true, false, true, false, false,
            false, false, false, false
        ]
    );
}

#[test]
fn groups_follow_byte_order() {
    let mut it = BitIterator::new(vec![0b10, 0b01], 2);
    assert_eq!(it.next(), Some(false));
    assert_eq!(it.next(), Some(true));
    assert_eq!(it.next(), Some(true));
    assert_eq!(it.next(), Some(false));
    assert_eq!(it.next(), None);
}

#[test]
fn cycling_iterator_starts_over() {
    let mut it = BitIterator::cycling(vec![0b01], 2);
    for _ in 0..5 {
        assert_eq!(it.next(), Some(true));
        assert_eq!(it.next(), Some(false));
    }
}
