use stegano::image::image_coder::BitQueue;

#[test]
fn new_queue_is_empty() {
    let q = BitQueue::new();
    assert_eq!(q.total_bits(), 0);
    assert_eq!(q.total_filled_bytes(), 0);
    assert!(q.get_bytes().is_empty());
}

#[test]
fn push_byte_then_pop_byte() {
    let mut q = BitQueue::new();
    q.push_byte(0xA5);
    assert_eq!(q.total_bits(), 8);
    assert_eq!(q.total_filled_bytes(), 1);
    assert_eq!(q.get_bytes(), &[0xA5]);
    assert_eq!(q.pop_bits(8), 0xA5);
    assert_eq!(q.total_bits(), 0);
    assert!(q.get_bytes().is_empty());
}

#[test]
fn push_bits_takes_low_bits_most_significant_first() {
    let mut q = BitQueue::new();
    // low 3 bits of 0b1111_0101 are 101
    q.push_bits(0b1111_0101, 3);
    assert_eq!(q.total_bits(), 3);
    assert_eq!(q.total_filled_bytes(), 0);
    assert_eq!(q.get_bytes(), &[0b1010_0000]);
    q.push_bits(0b11, 2);
    assert_eq!(q.get_bytes(), &[0b1011_1000]);
    q.push_bits(0b0110, 4);
    assert_eq!(q.total_bits(), 9);
    assert_eq!(q.total_filled_bytes(), 1);
    assert_eq!(q.get_bytes(), &[0b1011_1011, 0b0000_0000]);
}

#[test]
fn push_bits_of_width_zero_changes_nothing() {
    let mut q = BitQueue::new();
    q.push_bits(0xFF, 0);
    assert_eq!(q.total_bits(), 0);
    q.push_byte(0x0F);
    q.push_bits(0xFF, 0);
    assert_eq!(q.get_bytes(), &[0x0F]);
    assert_eq!(q.pop_bits(0), 0);
    assert_eq!(q.total_bits(), 8);
}

#[test]
fn push_wide_value_spans_bytes() {
    let mut q = BitQueue::new();
    q.push_bits(0x0123_4567_89AB_CDEF, 64);
    assert_eq!(q.total_bits(), 64);
    assert_eq!(q.get_bytes(), &[0x01, 0x23, 0x45, 0x67, 0x89, 0xAB, 0xCD, 0xEF]);
    let mut q = BitQueue::new();
    q.push_bits(0b1, 1);
    q.push_bits(0xABCD, 16);
    // 1 1010 1011 1100 1101 -> 1101 0101 | 1110 0110 | 1000 0000
    assert_eq!(q.get_bytes(), &[0xD5, 0xE6, 0x80]);
}

#[test]
fn pop_returns_bits_right_aligned() {
    let mut q = BitQueue::new();
    q.push_byte(0b1011_0010);
    assert_eq!(q.pop_bits(3), 0b101);
    assert_eq!(q.total_bits(), 5);
    assert_eq!(q.get_bytes(), &[0b1001_0000]);
    assert_eq!(q.pop_bits(1), 0b1);
    assert_eq!(q.pop_bits(4), 0b0010);
    assert_eq!(q.total_bits(), 0);
}

#[test]
fn pop_shifts_across_bytes() {
    let mut q = BitQueue::new();
    q.push_byte(0x12);
    q.push_byte(0x34);
    q.push_byte(0x56);
    assert_eq!(q.pop_bits(4), 0x1);
    assert_eq!(q.get_bytes(), &[0x23, 0x45, 0x60]);
    assert_eq!(q.total_bits(), 20);
    assert_eq!(q.pop_bits(8), 0x23);
    assert_eq!(q.get_bytes(), &[0x45, 0x60]);
    assert_eq!(q.pop_bits(8), 0x45);
    assert_eq!(q.pop_bits(4), 0x6);
    assert_eq!(q.total_bits(), 0);
}

#[test]
fn bytes_pushed_come_back_as_bytes() {
    let payload: Vec<u8> = (0..=255u8).collect();
    let mut q = BitQueue::new();
    for b in &payload {
        q.push_byte(*b);
    }
    assert_eq!(q.total_filled_bytes(), 256);
    let mut back = Vec::new();
    while q.total_bits() >= 8 {
        back.push(q.pop_bits(8));
    }
    assert_eq!(back, payload);
}

#[test]
fn groups_of_three_rebuild_the_bytes() {
    // 3 bytes are 24 bits: eight groups of three
    let payload = [0b1101_0011u8, 0b0010_1110, 0b1000_0001];
    let mut q = BitQueue::new();
    for b in payload {
        q.push_byte(b);
    }
    let mut groups = Vec::new();
    while q.total_bits() >= 3 {
        groups.push(q.pop_bits(3));
    }
    assert_eq!(groups, vec![0b110, 0b100, 0b110, 0b010, 0b111, 0b010, 0b000, 0b001]);
    let mut back = BitQueue::new();
    for g in groups {
        back.push_bits(g as u64, 3);
    }
    assert_eq!(back.get_bytes(), &payload);
}

#[test]
fn mixed_widths_keep_the_order_of_bits() {
    let payload = [0xDEu8, 0xAD, 0xBE, 0xEF, 0x42];
    let widths = [1usize, 2, 3, 4, 5, 6, 7, 8, 4];
    let mut q = BitQueue::new();
    for b in payload {
        q.push_byte(b);
    }
    let mut back = BitQueue::new();
    for w in widths {
        let g = q.pop_bits(w);
        assert!((g as u16) < (1u16 << w));
        back.push_bits(g as u64, w);
    }
    assert_eq!(q.total_bits(), 0);
    assert_eq!(back.get_bytes(), &payload);
}

#[test]
fn interleaved_push_and_pop() {
    let mut q = BitQueue::new();
    q.push_byte(0xF0);
    assert_eq!(q.pop_bits(5), 0b11110);
    q.push_byte(0x0F);
    // 000 0000 1111
    assert_eq!(q.total_bits(), 11);
    assert_eq!(q.get_bytes(), &[0b0000_0001, 0b1110_0000]);
    assert_eq!(q.pop_bits(8), 0b0000_0001);
    assert_eq!(q.pop_bits(3), 0b111);
}
