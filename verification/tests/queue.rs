use easy_timer::job::{BaseJobBuilder, Job, JobBuilder, JobId};
use easy_timer::scheduler::bucket::{Buckets, ItemBucket};
use easy_timer::scheduler::bucket_scheduler::HeapTimeBuckets;
use easy_timer::scheduler::heap_scheduler::HeapItemBuckets;
use easy_timer::scheduler::item::{Item, ScheduleItem, ScheduleJobItem};
use easy_timer::zone::Zone;

fn item(id: usize, time: u64) -> ScheduleItem {
    ScheduleItem { id: JobId(id), time }
}

#[test]
fn empty_queue_gives_nothing() {
    let mut q = HeapItemBuckets::new();
    assert!(q.is_empty());
    assert_eq!(q.len(), 0);
    assert_eq!(q.peek(), None);
    assert_eq!(q.pop(), None);
    assert!(q.is_empty());
}

#[test]
fn entries_leave_in_order_of_their_instants() {
    let mut q = HeapItemBuckets::new();
    for (id, time) in [(1, 50), (2, 10), (3, 40), (4, 20), (5, 30)] {
        q.add(item(id, time));
    }
    assert_eq!(q.len(), 5);
    assert_eq!(q.peek(), Some(item(2, 10)));
    let mut out = Vec::new();
    while let Some(next) = q.pop() {
        out.push(next);
    }
    assert_eq!(out, vec![item(2, 10), item(4, 20), item(5, 30), item(3, 40), item(1, 50)]);
    assert!(q.is_empty());
}

#[test]
fn entries_of_one_instant_leave_by_job_id() {
    let mut q = HeapItemBuckets::new();
    for id in [7, 3, 9, 1, 5] {
        q.add(item(id, 100));
    }
    q.add(item(8, 99));
    let mut out = Vec::new();
    while let Some(next) = q.pop() {
        out.push((next.get_time(), next.get_id().0));
    }
    assert_eq!(out, vec![(99, 8), (100, 1), (100, 3), (100, 5), (100, 7), (100, 9)]);
}

#[test]
fn equal_entries_are_each_kept() {
    let mut q = HeapItemBuckets::new();
    q.add(item(1, 5));
    q.add(item(1, 5));
    q.add(item(1, 4));
    assert_eq!(q.len(), 3);
    assert_eq!(q.pop(), Some(item(1, 4)));
    assert_eq!(q.pop(), Some(item(1, 5)));
    assert_eq!(q.pop(), Some(item(1, 5)));
    assert_eq!(q.pop(), None);
}

#[test]
fn many_entries_come_out_sorted() {
    let mut q = HeapItemBuckets::new();
    let mut expected = Vec::new();
    let mut x: u64 = 12345;
    for id in 0..5000usize {
        x = x.wrapping_mul(6364136223846793005).wrapping_add(1442695040888963407);
        let time = (x >> 33) % 1000;
        q.add(item(id, time));
        expected.push((time, id));
    }
    expected.sort();
    let mut out = Vec::new();
    while let Some(next) = q.pop() {
        out.push((next.time, next.id.0));
    }
    assert_eq!(out, expected);
}

#[test]
fn precedes_orders_by_instant_then_id() {
    assert!(item(9, 1).precedes(&item(1, 2)));
    assert!(!item(1, 2).precedes(&item(9, 1)));
    assert!(item(1, 5).precedes(&item(2, 5)));
    assert!(!item(2, 5).precedes(&item(1, 5)));
    assert!(!item(3, 5).precedes(&item(3, 5)));
}

#[test]
fn time_bucket_keeps_entries_of_one_instant() {
    let mut bucket = ItemBucket::new(50);
    assert_eq!(bucket.get_time(), 50);
    assert!(bucket.get_items().is_empty());
    bucket.push(item(1, 50));
    bucket.push(item(2, 50));
    bucket.forward_n(20);
    assert_eq!(bucket.get_time(), 30);
    bucket.forward_n(30);
    assert_eq!(bucket.get_time(), 0);
    let later = ItemBucket::new(1);
    assert!(bucket.precedes(&later));
    assert!(!later.precedes(&bucket));
    assert!(!later.precedes(&later));
    assert_eq!(bucket.get_items(), vec![item(1, 50), item(2, 50)]);
    assert!(bucket.get_items().is_empty());
}

#[test]
fn entry_with_its_job() {
    let mut b = BaseJobBuilder::new();
    let mut job = b.run_sync(0u8).remove(0).with_tz(Zone::utc());
    job.set_id(JobId(6));
    let entry = ScheduleJobItem { time: 77, job };
    assert_eq!(entry.get_time(), 77);
    assert_eq!(entry.get_id(), JobId(6));
    assert_eq!(entry.entry(), item(6, 77));
}

#[test]
fn entries_of_one_instant_leave_together() {
    let mut q = HeapTimeBuckets::new();
    assert_eq!(q.pop(), None);
    for (id, time) in [(4, 20), (1, 10), (3, 20), (2, 10), (5, 30), (6, 20)] {
        q.add(item(id, time));
    }
    assert_eq!(q.pop(), Some((10, vec![item(1, 10), item(2, 10)])));
    assert_eq!(q.pop(), Some((20, vec![item(3, 20), item(4, 20), item(6, 20)])));
    q.add(item(7, 30));
    q.add(item(8, 25));
    assert_eq!(q.pop(), Some((25, vec![item(8, 25)])));
    assert_eq!(q.pop(), Some((30, vec![item(5, 30), item(7, 30)])));
    assert_eq!(q.pop(), None);
}
