use bandcamp_dl::batch::{permits_for_physical_cores, total_extracted, Batch};
use bandcamp_dl::download::{resolve_download_name, DownloadError};

#[test]
fn outcomes_follow_submission_order() {
    let mut b: Batch<usize> = Batch::new(4, 4);
    let mut started = Vec::new();
    while let Some(i) = b.start_next() {
        started.push(i);
    }
    assert_eq!(started, vec![0, 1, 2, 3]);
    for i in [2, 0, 3, 1] {
        b.finish(i, i * 10);
    }
    assert!(b.is_complete());
    assert_eq!(b.into_outcomes(), vec![0, 10, 20, 30]);
}

#[test]
fn one_failed_download_does_not_fail_the_batch() {
    let mut b: Batch<Result<String, DownloadError>> = Batch::new(2, 2);
    let first = b.start_next().unwrap();
    let second = b.start_next().unwrap();
    b.finish(second, resolve_download_name(404, None));
    b.finish(first, resolve_download_name(200, Some("attachment; filename=\"good.zip\"")));
    let results = b.into_outcomes();
    assert_eq!(results.len(), 2);
    assert_eq!(results[0], Ok("good.zip".to_string()));
    assert_eq!(results[1], Err(DownloadError::Status(404)));
}

#[test]
fn permits_bound_active_items() {
    let mut b: Batch<()> = Batch::new(7, 3);
    let mut peak = 0;
    let mut running = Vec::new();
    let mut done = 0;
    while done < 7 {
        while let Some(i) = b.start_next() {
            running.push(i);
            peak = peak.max(b.active());
        }
        assert!(b.active() <= b.capacity());
        let i = running.remove(0);
        b.finish(i, ());
        done += 1;
    }
    assert_eq!(peak, 3);
    assert!(b.is_complete());
    assert_eq!(b.into_outcomes().len(), 7);
}

#[test]
fn empty_batch_is_complete() {
    let mut b: Batch<u8> = Batch::new(0, 1);
    assert_eq!(b.start_next(), None);
    assert!(b.is_complete());
    assert!(b.into_outcomes().is_empty());
}

#[test]
fn physical_core_permits_at_least_one() {
    assert!(permits_for_physical_cores() >= 1);
}

#[test]
fn failed_archives_count_nothing() {
    let outcomes: Vec<Result<usize, String>> = vec![Ok(3), Err("bad".to_string()), Ok(4)];
    assert_eq!(total_extracted(&outcomes), 7);
    let big: Vec<Result<usize, ()>> = vec![Ok(usize::MAX), Ok(1)];
    assert_eq!(total_extracted(&big), usize::MAX);
    let none: Vec<Result<usize, ()>> = Vec::new();
    assert_eq!(total_extracted(&none), 0);
}

#[test]
fn running_items_are_those_started_without_outcome() {
    let mut b: Batch<u8> = Batch::new(3, 1);
    assert!(!b.is_running(0));
    assert_eq!(b.start_next(), Some(0));
    assert!(b.is_running(0));
    assert_eq!(b.start_next(), None);
    b.finish(0, 1);
    assert!(!b.is_running(0));
    assert_eq!(b.start_next(), Some(1));
    assert!(b.is_running(1));
    assert!(!b.is_running(2));
    assert_eq!(b.len(), 3);
}
