//! Tests of the FIFO swap manager's queue discipline.

use ucore_memory::fifo::FifoSwapManager;
use ucore_memory::fifo::Frame;

#[test]
fn test() {
    let mut manager = FifoSwapManager::default();
    let pt1: usize = 0x0;
    let pt1_token: usize = 0x0;
    let pt2: usize = 0x1;
    let pt2_token: usize = 0x1000;
    manager.push(Frame::new(pt1, 0x0, pt1_token));
    manager.push(Frame::new(pt1, 0x1000, pt1_token));
    manager.push(Frame::new(pt1, 0x2000, pt1_token));
    manager.push(Frame::new(pt2, 0x1000, pt2_token));
    manager.push(Frame::new(pt2, 0x0, pt2_token));
    manager.push(Frame::new(pt1, 0x3000, pt1_token));

    manager.remove(pt1_token, 0x2000);
    manager.remove(pt2_token, 0x0);

    assert_eq!(Frame::new(pt1, 0x0, pt1_token), manager.pop().expect("pop failed"));
    assert_eq!(Frame::new(pt1, 0x1000, pt1_token), manager.pop().expect("pop failed"));
    assert_eq!(Frame::new(pt2, 0x1000, pt2_token), manager.pop().expect("pop failed"));
    assert_eq!(Frame::new(pt1, 0x3000, pt1_token), manager.pop().expect("pop failed"));
}

#[test]
fn fifo_ordering_example() {
    let mut manager = FifoSwapManager::default();
    manager.push(Frame::new(0, 0x0000, 0));
    manager.push(Frame::new(0, 0x1000, 0));
    manager.push(Frame::new(0, 0x2000, 0));
    manager.push(Frame::new(1, 0x1000, 1));
    manager.push(Frame::new(1, 0x0000, 1));
    manager.push(Frame::new(0, 0x3000, 0));

    manager.remove(0, 0x2000);
    manager.remove(1, 0x0000);

    assert_eq!(manager.pop(), Some(Frame::new(0, 0x0000, 0)));
    assert_eq!(manager.pop(), Some(Frame::new(0, 0x1000, 0)));
    assert_eq!(manager.pop(), Some(Frame::new(1, 0x1000, 1)));
    assert_eq!(manager.pop(), Some(Frame::new(0, 0x3000, 0)));
    assert_eq!(manager.pop(), None);
}

#[test]
fn tick_and_empty_pop() {
    let mut manager = FifoSwapManager::default();
    assert_eq!(manager.pop(), None);
    manager.push(Frame::new(0, 0x5000, 7));
    manager.tick();
    let d = manager.pop().expect("pop failed");
    assert_eq!(d.get_virtaddr(), 0x5000);
    assert_eq!(d.get_token(), 7);
    assert_eq!(d.get_page_table(), 0);
    assert_eq!(manager.pop(), None);
}
