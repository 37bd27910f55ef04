use paradfs::buffer::ByteBuffer;

#[test]
fn test_buffer_cursor() {
    let mut buf = ByteBuffer::new(16);
    assert_eq!(buf.capacity(), 16);
    assert_eq!(buf.position(), 0);
    assert_eq!(buf.limit(), 16);
    assert_eq!(buf.remaining(), 16);
    assert!(buf.has_remaining());

    buf.put_bytes(&vec![1, 2, 3, 4]);
    assert_eq!(buf.position(), 4);
    assert_eq!(buf.remaining(), 12);

    buf.flip();
    assert_eq!(buf.position(), 0);
    assert_eq!(buf.limit(), 4);
    assert_eq!(buf.remaining(), 4);
    assert_eq!(buf.array()[0], 1);
    assert_eq!(buf.array()[3], 4);

    buf.set_position(3);
    assert_eq!(buf.remaining(), 1);
    buf.set_position(9);
    assert_eq!(buf.remaining(), 0);
    assert!(!buf.has_remaining());

    buf.clear();
    assert_eq!(buf.position(), 0);
    assert_eq!(buf.limit(), 16);
    // clearing does not erase the stored bytes
    assert_eq!(buf.array()[0], 1);
}

#[test]
fn test_buffer_set_limit() {
    let mut buf = ByteBuffer::new(8);
    buf.set_limit(5);
    assert_eq!(buf.limit(), 5);
    assert_eq!(buf.remaining(), 5);
    buf.set_position(2);
    assert_eq!(buf.remaining(), 3);
}

#[test]
fn test_buffer_compact() {
    let mut buf = ByteBuffer::new(8);
    buf.put_bytes(&vec![10, 20, 30, 40]);
    buf.flip();
    // consume the first two bytes, then compact the unread rest to the front
    buf.set_position(2);
    buf.compact();
    assert_eq!(buf.position(), 2);
    assert_eq!(buf.limit(), 8);
    assert_eq!(buf.array()[0], 30);
    assert_eq!(buf.array()[1], 40);

    // a fully drained buffer compacts to an empty front
    let mut done = ByteBuffer::new(4);
    done.put_bytes(&vec![7, 7]);
    done.flip();
    done.set_position(2);
    done.compact();
    assert_eq!(done.position(), 0);
    assert_eq!(done.limit(), 4);
}
