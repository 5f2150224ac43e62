use r4::bgop::BackgroundOp;
use r4::bgop::BUFFER_LIMIT;

#[test]
fn bgop_fifo_front_to_back() {
    let mut b: BackgroundOp<u32> = BackgroundOp::new();
    assert_eq!(b.fe_write_line(&1), (Some(None), true));
    assert_eq!(b.fe_write_line(&2), (Some(None), true));
    assert_eq!(b.be_read_line(), (Some(Some(1)), true));
    assert_eq!(b.be_read_line(), (Some(Some(2)), true));
    assert_eq!(b.be_read_line(), (None, false));
}

#[test]
fn bgop_front_end_marker() {
    let mut b: BackgroundOp<u32> = BackgroundOp::new();
    b.fe_close();
    assert_eq!(b.be_read_line(), (Some(None), true));
}

#[test]
fn bgop_back_to_front_drained_first() {
    let mut b: BackgroundOp<u32> = BackgroundOp::new();
    assert_eq!(b.be_write_line(&5), (Some(true), true));
    b.be_close();
    let r = b.fe_write_line(&9);
    assert_eq!(r, (Some(Some(vec![Some(5), None])), true));
    // the end marker came through
    assert_eq!(b.fe_close_step(), (Some(None), false));
    // 9 was not queued while output was pending
    assert_eq!(b.be_read_line(), (None, false));
}

#[test]
fn bgop_rclose_refuses() {
    let mut b: BackgroundOp<u32> = BackgroundOp::new();
    b.fe_rclose();
    assert_eq!(b.be_write_line(&1), (Some(false), false));
    b.be_rclose();
    assert!(b.fe_rclosed());
    assert_eq!(b.fe_write_line(&1), (Some(None), false));
}

#[test]
fn bgop_full_buffer_waits() {
    let mut b: BackgroundOp<u32> = BackgroundOp::new();
    for i in 0..BUFFER_LIMIT {
        assert_eq!(b.fe_write_line(&(i as u32)), (Some(None), true));
    }
    assert_eq!(b.fe_write_line(&0), (None, false));
    for i in 0..BUFFER_LIMIT {
        assert_eq!(b.be_write_line(&(i as u32)), (Some(true), true));
    }
    assert_eq!(b.be_write_line(&0), (None, false));
}

#[test]
fn bgop_close_step_waits_for_back_end() {
    let mut b: BackgroundOp<u32> = BackgroundOp::new();
    b.fe_close();
    assert_eq!(b.fe_close_step(), (None, false));
    b.be_close();
    assert_eq!(b.fe_close_step(), (Some(Some(vec![None])), true));
    assert_eq!(b.fe_close_step(), (Some(None), false));
}

#[test]
fn bgop_rclosed_stays_set() {
    let mut b: BackgroundOp<u32> = BackgroundOp::new();
    assert!(!b.fe_rclosed());
    b.be_rclose();
    assert!(b.fe_rclosed());
    b.be_write_line(&3);
    b.be_read_line();
    b.fe_write_line(&4);
    b.fe_rclose();
    b.be_close();
    b.fe_close();
    b.fe_close_step();
    assert!(b.fe_rclosed());
}

#[test]
fn bgop_write_with_full_queue_queues_once() {
    let mut b: BackgroundOp<u32> = BackgroundOp::new();
    for i in 0..BUFFER_LIMIT {
        assert_eq!(b.fe_write_line(&(i as u32)), (Some(None), true));
    }
    assert_eq!(b.be_write_line(&70), (Some(true), true));
    // first attempt hands over what waits, queues nothing
    assert_eq!(b.fe_write_line(&5000), (Some(Some(vec![Some(70)])), true));
    // queue still full: not yet
    assert_eq!(b.fe_write_line(&5000), (None, false));
    assert_eq!(b.be_read_line(), (Some(Some(0)), true));
    // now there is room: queued, and the write is over
    assert_eq!(b.fe_write_line(&5000), (Some(None), true));
    let mut seen = 0;
    loop {
        match b.be_read_line() {
            (Some(Some(5000)), _) => seen += 1,
            (Some(_), _) => {}
            (None, _) => break,
        }
    }
    assert_eq!(seen, 1);
}
