use ring_buffer::RingBuffer;

#[test]
fn a_new_ring_is_empty() {
    // GIVEN a new, empty ring
    let buffer = RingBuffer::<i32>::new(10);
    // WHEN I ask for its size
    let size = buffer.number_of_elements();
    // THEN it should be zero
    assert_eq!(size, 0);
}

#[test]
fn it_should_report_the_correct_number_of_elements_when_filled() {
    //Given an empty buffer
    let mut buffer: RingBuffer<i32> = RingBuffer::<i32>::new(10);
    //when added 4 elements
    for i in 0..4 {
        buffer.add(i);
    }
    let size = buffer.number_of_elements();
    //then it should return 4
    assert_eq!(size, 4);
}

#[test]
fn it_should_report_the_correct_number_of_elements_when_overfilled() {
    //Given an empty buffer
    let mut buffer: RingBuffer<i32> = RingBuffer::<i32>::new(10);
    //when added 12 elements
    for i in 1..13 {
        buffer.add(i);
    }
    let size = buffer.number_of_elements();
    //then it should return 10
    assert_eq!(size, 10);
}

#[test]
fn it_should_return_the_before_pushed_values() {
    //Given an empty buffer
    let mut buffer: RingBuffer<i32> = RingBuffer::<i32>::new(10);
    //when added 12 elements
    for i in 1..11 {
        println!("added {i}");
        buffer.add(i);
    }
    //then it should return 10
    for i in 1..11 {
        let ret_val = buffer.remove();
        println!("expected {}, was {:?}", i, ret_val);
        assert_eq!(ret_val, Some(i));
    }
}

#[test]
fn it_should_return_none_when_empty() {
    //Given an empty buffer
    let mut buffer: RingBuffer<i32> = RingBuffer::<i32>::new(10);
    //when removing an element
    let ret_val = buffer.remove();
    //then it should return none
    assert!(ret_val.is_none());
}

#[test]
fn it_should_write_in_a_circle_when_old_values_are_read() {
    //Given an fully filled  buffer
    let mut buffer: RingBuffer<i32> = RingBuffer::<i32>::new(10);
    for i in 1..11 {
        buffer.add(i);
    }
    //when adding another 5 elements
    for i in 11..16 {
        buffer.add(i);
    }
    //then the oldest value should always be returned
    for i in 6..16 {
        let ret_val = buffer.remove();
        println!("expected{}, was {:?}", i, ret_val);
        assert_eq!(ret_val, Some(i));
    }
}

#[test]
fn count_never_exceeds_capacity() {
    let mut buffer: RingBuffer<u64> = RingBuffer::<u64>::new(3);
    for i in 0..20u64 {
        buffer.add(i);
        assert!(buffer.number_of_elements() <= 3);
    }
    assert_eq!(buffer.number_of_elements(), 3);
}

#[test]
fn a_single_slot_ring_keeps_only_the_newest_value() {
    let mut buffer: RingBuffer<i32> = RingBuffer::<i32>::new(1);
    buffer.add(1);
    buffer.add(2);
    assert_eq!(buffer.number_of_elements(), 1);
    assert_eq!(buffer.remove(), Some(2));
    assert_eq!(buffer.remove(), None);
}

#[test]
fn removing_from_an_empty_ring_changes_nothing() {
    let mut buffer: RingBuffer<i32> = RingBuffer::<i32>::new(4);
    assert_eq!(buffer.remove(), None);
    assert_eq!(buffer.number_of_elements(), 0);
    buffer.add(7);
    assert_eq!(buffer.remove(), Some(7));
    assert_eq!(buffer.remove(), None);
    assert_eq!(buffer.number_of_elements(), 0);
    buffer.add(8);
    assert_eq!(buffer.remove(), Some(8));
}

#[test]
fn interleaved_adds_and_removes_stay_in_order() {
    let mut buffer: RingBuffer<i32> = RingBuffer::<i32>::new(3);
    buffer.add(1);
    buffer.add(2);
    buffer.add(3);
    assert_eq!(buffer.remove(), Some(1));
    buffer.add(4);
    buffer.add(5);
    assert_eq!(buffer.number_of_elements(), 3);
    assert_eq!(buffer.remove(), Some(3));
    assert_eq!(buffer.remove(), Some(4));
    assert_eq!(buffer.remove(), Some(5));
    assert_eq!(buffer.remove(), None);
}

#[test]
fn growth_below_capacity_counts_every_add() {
    let mut buffer: RingBuffer<u8> = RingBuffer::<u8>::new(10);
    for k in 1..10u8 {
        buffer.add(k);
        assert_eq!(buffer.number_of_elements(), k as usize);
    }
}
