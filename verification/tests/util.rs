use entity_engine::util::sync::rw_spinlock::{
    activate, deactivate, readers_may_begin, RwSpinLock, ACTIVE_FLAG,
};
use entity_engine::util::work_pool::queue::Queue;

#[test]
fn multiple_readers() {
    let mut lock = RwSpinLock::new(0);
    {
        let mut locks = Vec::new();
        for _ in 0..32 {
            locks.push(lock.read().ok().unwrap())
        }
        for guard in locks {
            lock.release_read(guard);
        }
    }
}

#[test]
fn smoke() {
    let mut l = RwSpinLock::new(());
    let r = l.read().ok().unwrap();
    l.release_read(r);
    let w = l.write().ok().unwrap();
    l.release_write(w, false);
    let (a, b) = (l.read().ok().unwrap(), l.read().ok().unwrap());
    l.release_read(a);
    l.release_read(b);
    let w = l.write().ok().unwrap();
    l.release_write(w, false);
}

#[test]
fn test_rw_arc_poison_wr() {
    let mut lock = RwSpinLock::new(1);
    let guard = lock.write().ok().unwrap();
    lock.release_write(guard, true);
    assert!(lock.read().is_err());
}

#[test]
fn test_rw_arc_poison_ww() {
    let mut lock = RwSpinLock::new(1);
    assert!(!lock.is_poisoned());
    let guard = lock.write().ok().unwrap();
    lock.release_write(guard, true);
    assert!(lock.write().is_err());
    assert!(lock.is_poisoned());
}

#[test]
fn test_rw_arc_no_poison_rr() {
    let mut lock = RwSpinLock::new(1);
    let guard = lock.read().ok().unwrap();
    lock.release_read(guard);
    let guard = lock.read().ok().unwrap();
    assert_eq!(*lock.get(&guard), 1);
}

#[test]
fn test_rw_arc_no_poison_rw() {
    let mut lock = RwSpinLock::new(1);
    let guard = lock.read().ok().unwrap();
    lock.release_read(guard);
    let guard = lock.write().ok().unwrap();
    assert_eq!(*lock.get_mut(&guard), 1);
}

#[test]
fn test_rw_arc() {
    let mut lock = RwSpinLock::new(0);
    let writer = lock.write().ok().unwrap();
    let mut readers = Vec::new();
    for _ in 0..10 {
        let tmp = *lock.get_mut(&writer);
        *lock.get_mut(&writer) = -1;
        // a reader who comes now finds the writer in the act, and leaves again.
        let ticket = lock.announce_read();
        assert!(lock.confirm_read(ticket).is_none());
        *lock.get_mut(&writer) = tmp + 1;
    }
    lock.release_write(writer, false);
    for _ in 0..5 {
        let guard = lock.read().ok().unwrap();
        assert!(*lock.get(&guard) >= 0);
        readers.push(guard);
    }
    for guard in readers {
        lock.release_read(guard);
    }
    let guard = lock.read().ok().unwrap();
    assert_eq!(*lock.get(&guard), 10);
}

#[test]
fn a_poisoned_lock_still_hands_out_its_data() {
    let mut lock = RwSpinLock::new(5);
    let guard = lock.write().ok().unwrap();
    *lock.get_mut(&guard) = 6;
    lock.release_write(guard, true);
    let guard = lock.read().err().unwrap().guard;
    assert_eq!(*lock.get(&guard), 6);
}

#[test]
fn a_writer_waits_for_readers() {
    let mut lock = RwSpinLock::new(0);
    let reader = lock.read().ok().unwrap();
    let ticket = lock.announce_write();
    assert!(!lock.writers_gone());
    let ticket = lock.await_readers(ticket).err().unwrap();
    // no reader begins while a writer is pending.
    let late = lock.announce_read();
    assert!(lock.confirm_read(late).is_none());
    lock.release_read(reader);
    let turn = lock.await_readers(ticket).ok().unwrap();
    let guard = lock.begin_write(turn).ok().unwrap();
    lock.release_write(guard, false);
    assert!(lock.writers_gone());
}

#[test]
fn one_writer_at_a_time() {
    let mut lock = RwSpinLock::new(0);
    let first = lock.announce_write();
    let second = lock.announce_write();
    let first = lock.await_readers(first).ok().unwrap();
    let second = lock.await_readers(second).ok().unwrap();
    let guard = lock.begin_write(first).ok().unwrap();
    let second = lock.begin_write(second).err().unwrap();
    lock.release_write(guard, false);
    let guard = lock.begin_write(second).ok().unwrap();
    lock.release_write(guard, false);
    assert!(lock.writers_gone());
}

#[test]
fn the_word_of_the_writers() {
    assert!(readers_may_begin(0));
    assert!(!readers_may_begin(1));
    assert!(!readers_may_begin(ACTIVE_FLAG));
    assert_eq!(activate(3), Some(2 + ACTIVE_FLAG));
    assert_eq!(activate(3 + ACTIVE_FLAG), None);
    assert_eq!(deactivate(2 + ACTIVE_FLAG), 2);
    assert_eq!(deactivate(2), 2);
}

#[test]
fn owner_takes_the_newest_and_thieves_the_oldest() {
    let mut q: Queue<u32> = Queue::new();
    assert_eq!(q.len(), 0);
    assert!(q.can_push());
    for n in 0..4 {
        q.push(n);
    }
    assert_eq!(q.len(), 4);
    assert_eq!(q.pop(), Some(3));
    assert_eq!(q.steal(), Some(0));
    assert_eq!(q.steal(), Some(1));
    assert_eq!(q.pop(), Some(2));
    assert_eq!(q.pop(), None);
    assert_eq!(q.steal(), None);
}

#[test]
fn a_queue_fills_up() {
    let mut q: Queue<usize> = Queue::new();
    let mut n = 0;
    while q.can_push() {
        q.push(n);
        n += 1;
    }
    assert_eq!(n, 4096);
    assert_eq!(q.steal(), Some(0));
    assert!(q.can_push());
    q.push(n);
    assert_eq!(q.pop(), Some(4096));
    assert_eq!(q.steal(), Some(1));
}
