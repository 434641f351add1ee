use pickture::jobs::{
    progress_found, split_workers, DecodeKind, DecodeQueue, DecodeRequest, Job, JobHeap,
};

fn job(priority: u32, seq: u64) -> Job {
    Job {
        request: DecodeRequest {
            path: format!("{seq}.jpg"),
            modified: None,
            len: 0,
            priority,
        },
        generation: 0,
        seq,
    }
}

#[test]
fn nearest_frame_is_decoded_first() {
    let mut heap = JobHeap::new();
    heap.push(job(10, 1));
    heap.push(job(1, 2));
    heap.push(job(5, 3));
    assert_eq!(heap.pop().unwrap().request.priority, 1);
    assert_eq!(heap.pop().unwrap().request.priority, 5);
    assert_eq!(heap.pop().unwrap().request.priority, 10);
}

#[test]
fn equal_priority_keeps_insertion_order() {
    let mut heap = JobHeap::new();
    heap.push(job(4, 1));
    heap.push(job(4, 2));
    heap.push(job(4, 3));
    assert_eq!(heap.pop().unwrap().seq, 1);
    assert_eq!(heap.pop().unwrap().seq, 2);
}

#[test]
fn duplicate_requests_are_dropped_and_cancel_empties_the_queue() {
    let _kind = DecodeKind::Thumbnail { box_w: 190, box_h: 150 };
    let mut queue = DecodeQueue::new();
    let req = || DecodeRequest {
        path: "does-not-exist-anywhere.jpg".to_string(),
        modified: None,
        len: 0,
        priority: 500,
    };
    queue.request(req());
    queue.request(req());
    assert!(queue.pending() <= 1);
    queue.cancel_all();
    assert_eq!(queue.pending(), 0);
}

#[test]
fn worker_split_leaves_room_for_the_ui() {
    // The fallback core count, and the range a machine might report.
    for cores in [4usize, 1, 2, 3, 6, 8, 12, 16, 24, 64] {
        let (thumbs, preview) = split_workers(cores);
        assert!(thumbs >= 1);
        assert!(preview >= 2);
    }
}

#[test]
fn split_gives_previews_a_third_within_bounds() {
    assert_eq!(split_workers(4), (1, 2));
    assert_eq!(split_workers(12), (7, 4));
    assert_eq!(split_workers(64), (57, 6));
}

#[test]
fn a_finished_path_can_be_asked_for_again() {
    let mut queue = DecodeQueue::new();
    let req = DecodeRequest { path: "a.jpg".to_string(), modified: Some(5), len: 9, priority: 0 };
    assert!(queue.request(req));
    assert!(queue.is_outstanding("a.jpg"));
    let job = queue.take_next().unwrap();
    assert_eq!(job.request.path, "a.jpg");
    assert!(queue.is_current(&job));
    assert!(queue.is_outstanding("a.jpg"));
    queue.finish("a.jpg");
    assert!(!queue.is_outstanding("a.jpg"));
    let again = DecodeRequest { path: "a.jpg".to_string(), modified: Some(5), len: 9, priority: 0 };
    assert!(queue.request(again));
}

#[test]
fn cancelled_jobs_are_no_longer_current() {
    let mut queue = DecodeQueue::new();
    queue.request(DecodeRequest { path: "b.jpg".to_string(), modified: None, len: 0, priority: 3 });
    let job = queue.take_next().unwrap();
    queue.cancel_all();
    assert!(!queue.is_current(&job));
    assert_eq!(queue.generation(), 1);
}

#[test]
fn queue_serves_nearest_then_earliest() {
    let mut queue = DecodeQueue::new();
    for (name, p) in [("far.jpg", 9u32), ("near.jpg", 1), ("also-near.jpg", 1)] {
        queue.request(DecodeRequest { path: name.to_string(), modified: None, len: 0, priority: p });
    }
    assert_eq!(queue.take_next().unwrap().request.path, "near.jpg");
    assert_eq!(queue.take_next().unwrap().request.path, "also-near.jpg");
    assert_eq!(queue.take_next().unwrap().request.path, "far.jpg");
    assert!(queue.take_next().is_none());
}

#[test]
fn scan_progress_reports_every_sixteenth_frame() {
    assert_eq!(progress_found(0, 40), Some(0));
    assert_eq!(progress_found(5, 40), None);
    assert_eq!(progress_found(32, 40), Some(32));
    assert_eq!(progress_found(48, 40), Some(40));
}
