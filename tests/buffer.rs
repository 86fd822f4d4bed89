use nmg_core::buffer::AlignedBuffer;

#[test]
fn aligned_buffer_sizes() {
    for &alignment in &[64usize, 128, 256, 512] {
        let mut buffer = AlignedBuffer::<[u64; 4]>::new(alignment, 3);
        assert_eq!(buffer.byte_alignment(), alignment);
        assert_eq!(buffer.size(), 3 * alignment);
        for k in 0..3 {
            buffer.push([k as u64; 4]);
            assert_eq!(buffer.byte_offset(k), k * alignment);
        }
        assert_eq!(buffer.len(), 3);
        assert_eq!(buffer.entries()[2], [2u64; 4]);
    }
}

#[test]
fn aligned_buffer_rounds_to_words() {
    let buffer = AlignedBuffer::<u8>::new(996, 1);
    let word = std::mem::size_of::<usize>();
    assert_eq!(buffer.byte_alignment(), 996 / word * word);
    assert_eq!(buffer.size(), 996 / word * word);
}
