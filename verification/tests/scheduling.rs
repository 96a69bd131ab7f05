use chrono::offset::TimeZone;
use chrono::Local;

use job_scheduler::ExecutionWindow;
use job_scheduler::Job;
use job_scheduler::Schedule;
use job_scheduler::Timestamp;

fn ts(year: i32, month: u32, day: u32, hour: u32) -> Timestamp {
    Timestamp { secs: Local.with_ymd_and_hms(year, month, day, hour, 0, 0).unwrap().timestamp() }
}

fn setup_jobs() -> Vec<Job> {
    vec![
        Job {
            id: 1,
            description: "Importação de arquivos de fundos".to_string(),
            max_end_date: ts(2019, 11, 10, 12),
            estimated_time: 2,
        },
        Job {
            id: 2,
            description: "Importação de dados da Base Legada".to_string(),
            max_end_date: ts(2019, 11, 11, 12),
            estimated_time: 4,
        },
        Job {
            id: 3,
            description: "Importação de dados de integração".to_string(),
            max_end_date: ts(2019, 11, 11, 8),
            estimated_time: 6,
        },
        // Jobs outside the execution window.
        Job {
            id: 4,
            description: "Importação de arquivos de ...".to_string(),
            max_end_date: ts(2019, 11, 10, 12),
            estimated_time: 6,
        },
        Job {
            id: 5,
            description: "Importação de dados da ...".to_string(),
            max_end_date: ts(2019, 11, 10, 5),
            estimated_time: 5,
        },
        Job {
            id: 6,
            description: "Importação de dados de ...".to_string(),
            max_end_date: ts(2019, 11, 11, 18),
            estimated_time: 4,
        },
    ]
}

fn setup_window() -> ExecutionWindow {
    ExecutionWindow { start: ts(2019, 11, 10, 9), end: ts(2019, 11, 11, 12) }
}

fn plain_job(id: u64, deadline_secs: i64, estimated_time: u32) -> Job {
    Job {
        id,
        description: format!("job {}", id),
        max_end_date: Timestamp { secs: deadline_secs },
        estimated_time,
    }
}

fn ids(groups: &Vec<Vec<Job>>) -> Vec<Vec<u64>> {
    groups.iter().map(|arr| arr.iter().map(|job| job.id).collect::<Vec<u64>>()).collect()
}

#[test]
fn test_job_get_start_date() {
    let expected_dates = vec![
        ts(2019, 11, 10, 10),
        ts(2019, 11, 11, 8),
        ts(2019, 11, 11, 2),
        ts(2019, 11, 10, 6),
        ts(2019, 11, 10, 0),
        ts(2019, 11, 11, 14),
    ];
    let jobs = setup_jobs();

    (0..jobs.len()).for_each(move |i| assert_eq!(expected_dates[i], jobs[i].get_start_date()));
}

#[test]
fn test_is_within_the_execution_window() {
    let jobs = setup_jobs();
    let window = setup_window();

    jobs.iter().for_each(|job| assert_eq!(job.id <= 3, window.is_within(job)));
}

#[test]
fn test_schedule_order() {
    let jobs = setup_jobs();
    let window = setup_window();

    let arrays = Schedule::order(&window, &jobs);

    let expected: Vec<Vec<u64>> = vec![vec![1, 3], vec![2]];

    assert_eq!(expected, ids(&arrays));
}

#[test]
fn test_get_start_date_exact_subtraction() {
    let job = plain_job(7, 1_000_000, 3);
    assert_eq!(Timestamp { secs: 1_000_000 - 3 * 3600 }, job.get_start_date());

    let instant = plain_job(8, -50, 0);
    assert_eq!(Timestamp { secs: -50 }, instant.get_start_date());
}

#[test]
fn test_is_within_requires_both_endpoints() {
    let window = ExecutionWindow { start: Timestamp { secs: 0 }, end: Timestamp { secs: 7200 } };

    // Both endpoints inside, boundaries included: start lands exactly on the
    // window start, deadline exactly on the window end.
    assert!(window.is_within(&plain_job(1, 3600, 1)));
    assert!(window.is_within(&plain_job(2, 7200, 1)));

    // Start one second before the window, deadline inside.
    assert!(!window.is_within(&plain_job(3, 3599, 1)));

    // Start inside, deadline after the window.
    assert!(!window.is_within(&plain_job(4, 7201, 1)));

    // Entirely outside.
    assert!(!window.is_within(&plain_job(5, -10, 0)));
}

#[test]
fn test_order_empty_input() {
    let window = setup_window();
    let jobs: Vec<Job> = Vec::new();

    let arrays = Schedule::order(&window, &jobs);

    assert!(arrays.is_empty());
}

#[test]
fn test_order_all_jobs_outside_window() {
    let window = ExecutionWindow { start: Timestamp { secs: 0 }, end: Timestamp { secs: 10 } };
    let jobs = vec![plain_job(1, 7200, 1), plain_job(2, -3600, 0)];

    let arrays = Schedule::order(&window, &jobs);

    assert!(arrays.is_empty());
}

#[test]
fn test_degenerate_window_rejects_everything() {
    let window = ExecutionWindow { start: Timestamp { secs: 100 }, end: Timestamp { secs: 0 } };
    let jobs = vec![plain_job(1, 50, 0)];

    assert!(!window.is_within(&jobs[0]));
    assert!(Schedule::order(&window, &jobs).is_empty());
}

#[test]
fn test_exact_threshold_keeps_accumulating() {
    let window = ExecutionWindow { start: Timestamp { secs: 0 }, end: Timestamp { secs: 1_000_000 } };
    // Cumulative durations: 4, then exactly 8 — never strictly above the
    // threshold, so a single group holds both jobs.
    let jobs = vec![plain_job(1, 500_000, 4), plain_job(2, 600_000, 4)];

    let arrays = Schedule::order(&window, &jobs);

    assert_eq!(vec![vec![1, 2]], ids(&arrays));
}

#[test]
fn test_overflowing_job_opens_the_next_group() {
    let window = ExecutionWindow { start: Timestamp { secs: 0 }, end: Timestamp { secs: 1_000_000 } };
    // Cumulative durations: 4, 8, 9 — the third job pushes the total past 8,
    // closes the group of the first two, and opens the next group itself.
    let jobs = vec![plain_job(1, 500_000, 4), plain_job(2, 600_000, 4), plain_job(3, 700_000, 1)];

    let arrays = Schedule::order(&window, &jobs);

    assert_eq!(vec![vec![1, 2], vec![3]], ids(&arrays));
}

#[test]
fn test_oversized_job_is_not_split() {
    let window = ExecutionWindow { start: Timestamp { secs: -1_000_000 }, end: Timestamp { secs: 1_000_000 } };
    // A job whose duration alone exceeds the threshold still heads a group
    // of its own rather than being split.
    let alone = vec![plain_job(1, 100_000, 20)];
    assert_eq!(vec![vec![1]], ids(&Schedule::order(&window, &alone)));

    // Its duration is not carried into the fresh counter, so a small
    // follower still joins its group.
    let followed = vec![plain_job(1, 100_000, 20), plain_job(2, 200_000, 3)];
    assert_eq!(vec![vec![1, 2]], ids(&Schedule::order(&window, &followed)));
}

#[test]
fn test_counter_restarts_at_zero_after_overflow() {
    let window = ExecutionWindow { start: Timestamp { secs: 0 }, end: Timestamp { secs: 1_000_000 } };
    // Durations 5, 5, 5, 5: the second job overflows (10 > 8) and opens a
    // group with a zeroed counter, so the third still fits beside it; the
    // fourth overflows again (10 > 8) and opens the last group.
    let jobs = vec![
        plain_job(1, 500_000, 5),
        plain_job(2, 600_000, 5),
        plain_job(3, 700_000, 5),
        plain_job(4, 800_000, 5),
    ];

    let arrays = Schedule::order(&window, &jobs);

    assert_eq!(vec![vec![1], vec![2, 3], vec![4]], ids(&arrays));
}

#[test]
fn test_sort_orders_by_ascending_deadline() {
    let window = ExecutionWindow { start: Timestamp { secs: -1_000_000 }, end: Timestamp { secs: 1_000_000 } };
    // Input in reverse deadline order; the schedule re-orders it.
    let jobs = vec![plain_job(1, 300_000, 1), plain_job(2, 200_000, 1), plain_job(3, 100_000, 1)];

    let arrays = Schedule::order(&window, &jobs);

    assert_eq!(vec![vec![3, 2, 1]], ids(&arrays));
    for group in &arrays {
        for pair in group.windows(2) {
            assert!(pair[0].max_end_date.secs <= pair[1].max_end_date.secs);
        }
    }
}

#[test]
fn test_equal_deadlines_keep_input_order() {
    let window = ExecutionWindow { start: Timestamp { secs: -1_000_000 }, end: Timestamp { secs: 1_000_000 } };
    let jobs = vec![plain_job(1, 100_000, 1), plain_job(2, 100_000, 1), plain_job(3, 100_000, 1)];

    let arrays = Schedule::order(&window, &jobs);

    assert_eq!(vec![vec![1, 2, 3]], ids(&arrays));
}

#[test]
fn test_grouped_jobs_all_fit_the_window() {
    let jobs = setup_jobs();
    let window = setup_window();

    let arrays = Schedule::order(&window, &jobs);

    for group in &arrays {
        for job in group {
            assert!(window.is_within(job));
        }
    }
}

#[test]
fn test_refiltering_is_idempotent() {
    let jobs = setup_jobs();
    let window = setup_window();

    let once: Vec<Job> = jobs.iter().filter(|job| window.is_within(job)).cloned().collect();
    let twice: Vec<Job> = once.iter().filter(|job| window.is_within(job)).cloned().collect();

    let once_ids: Vec<u64> = once.iter().map(|job| job.id).collect();
    let twice_ids: Vec<u64> = twice.iter().map(|job| job.id).collect();
    assert_eq!(once_ids, twice_ids);
}

#[test]
fn test_order_with_explicit_capacity() {
    let jobs = setup_jobs();
    let window = setup_window();

    // With capacity 12 the three eligible jobs (durations 2, 6, 4 in
    // deadline order) never exceed the threshold: one single group.
    let arrays = Schedule::order_with_capacity(&window, &jobs, 12);

    assert_eq!(vec![vec![1, 3, 2]], ids(&arrays));
}
