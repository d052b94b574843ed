use lutree::{Discipline, SearchBuffer};
use std::collections::VecDeque;

#[test]
fn stack_hands_out_last_item_first() {
    let mut stack: Vec<u32> = Vec::new();
    assert!(SearchBuffer::is_empty(&stack));
    stack.enlist(1);
    stack.enlist(2);
    stack.enlist(3);
    assert_eq!(stack.get_next(), Some(3));
    assert_eq!(stack.get_next(), Some(2));
    assert_eq!(stack.get_next(), Some(1));
    assert_eq!(stack.get_next(), None);
    assert!(SearchBuffer::is_empty(&stack));
}

#[test]
fn queue_hands_out_first_item_first() {
    let mut queue: VecDeque<u32> = VecDeque::new();
    queue.enlist(1);
    queue.enlist(2);
    assert!(!SearchBuffer::is_empty(&queue));
    assert_eq!(queue.get_next(), Some(1));
    queue.enlist(3);
    assert_eq!(queue.get_next(), Some(2));
    assert_eq!(queue.get_next(), Some(3));
    assert_eq!(queue.get_next(), None);
    assert_ne!(Discipline::Lifo, Discipline::Fifo);
}
