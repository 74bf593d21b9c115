use pixel_engine::swap_buffer::SwapBuffer;

#[test]
fn swap_buffer_starts_empty() {
    let b: SwapBuffer<u8> = SwapBuffer::new();
    assert!(b.deref().is_empty());
    let c: SwapBuffer<u8> = SwapBuffer::with_capacity(16);
    assert!(c.deref().is_empty());
    assert!(c.deref().capacity() >= 16);
}

#[test]
fn swap_buffer_switches_between_buffers() {
    let mut b: SwapBuffer<u32> = SwapBuffer::new();
    b.deref_mut().push(1);
    b.deref_mut().push(2);
    assert_eq!(b.deref(), &vec![1, 2]);
    b.switch();
    assert!(b.deref().is_empty());
    b.deref_mut().push(9);
    assert_eq!(b.deref(), &vec![9]);
    b.switch();
    assert_eq!(b.deref(), &vec![1, 2]);
}

#[test]
fn swap_buffer_switch_twice_is_identity() {
    let mut b: SwapBuffer<char> = SwapBuffer::new();
    b.deref_mut().push('a');
    b.switch();
    b.deref_mut().push('b');
    b.switch();
    b.switch();
    assert_eq!(b.deref(), &vec!['b']);
    b.switch();
    assert_eq!(b.deref(), &vec!['a']);
}
