use plonk_setup::big_buffer::BigBuffer;

#[test]
fn test_big_buffer_set_and_slice() {
    let mut buf = BigBuffer::new(100);
    assert_eq!(buf.byte_length, 100);
    assert_eq!(buf.slice(0, 8), vec![0u8; 8]);
    buf.set(&vec![1u8, 2, 3, 4], 10);
    assert_eq!(buf.slice(10, 14), vec![1u8, 2, 3, 4]);
    assert_eq!(buf.slice(9, 11), vec![0u8, 1]);
    assert_eq!(buf.slice(13, 16), vec![4u8, 0, 0]);
    buf.set(&vec![9u8], 99);
    assert_eq!(buf.slice(98, 100), vec![0u8, 9]);
    assert_eq!(buf.slice(50, 50), Vec::<u8>::new());
}
