use rattler::queue::{Job, Queue};
use rattler::solver::{SOLVER_INSTALL, SOLVER_SOLVABLE_PROVIDES, SOLVER_UPDATE};

#[test]
fn a_queue_keeps_its_jobs_in_order() {
    let mut queue = Queue::default();
    assert!(queue.is_empty());
    assert_eq!(queue.len(), 0);
    assert_eq!(queue.get(0), None);
    queue.push_id_with_flags(7, SOLVER_INSTALL | SOLVER_SOLVABLE_PROVIDES);
    queue.push(Job { id: 3, flags: SOLVER_UPDATE | SOLVER_SOLVABLE_PROVIDES });
    queue.push_id_with_flags(7, SOLVER_INSTALL | SOLVER_SOLVABLE_PROVIDES);
    assert_eq!(queue.len(), 3);
    assert!(!queue.is_empty());
    assert_eq!(queue.get(0), Some(Job { id: 7, flags: 0x0103 }));
    assert_eq!(queue.get(1), Some(Job { id: 3, flags: 0x0303 }));
    assert_eq!(queue.get(2), queue.get(0));
    assert_eq!(queue.get(3), None);
}

#[test]
fn a_job_can_be_replaced_in_place() {
    let mut queue = Queue::new();
    queue.push_id_with_flags(1, 2);
    queue.push_id_with_flags(3, 4);
    assert!(queue.set(1, 5, 6));
    assert!(!queue.set(2, 7, 8));
    assert_eq!(queue.get(0), Some(Job { id: 1, flags: 2 }));
    assert_eq!(queue.get(1), Some(Job { id: 5, flags: 6 }));
    assert_eq!(queue.len(), 2);
}

#[test]
fn clearing_empties_the_queue() {
    let mut queue = Queue::new();
    queue.push_id_with_flags(1, 2);
    queue.clear();
    assert!(queue.is_empty());
    queue.clear();
    assert_eq!(queue.len(), 0);
}

#[test]
fn the_flags_have_their_values() {
    assert_eq!(SOLVER_SOLVABLE_PROVIDES, 0x03);
    assert_eq!(SOLVER_INSTALL, 0x0100);
    assert_eq!(SOLVER_UPDATE, 0x0300);
}
