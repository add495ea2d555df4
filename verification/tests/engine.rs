use web_bench::cfg::Config;
use web_bench::{AppEngine, DequeueResult, EngineError, Job, WorkerState};

fn config(worker: usize, counts: usize) -> Config {
    Config::new(
        String::from("127.0.0.1:8080"),
        String::from("GET"),
        String::from("/"),
        worker,
        counts,
    )
}

#[test]
fn one_worker_no_tasks_reports_cleanly() {
    // One worker, nothing submitted: it observes the empty, closed queue at
    // once, terminates with zero tasks done, and the throughput computation
    // does not crash on a zero elapsed time.
    let cfg = config(1, 0);
    let outcomes: Vec<bool> = Vec::new();
    let schedule: Vec<usize> = Vec::new();
    let (engine, report) = web_bench::run_batch(&cfg, &outcomes, &schedule);
    assert_eq!(report.dequeued, 0);
    assert_eq!(report.joined, 1);
    assert_eq!(report.succeeded, 0);
    assert_eq!(report.failed, 0);
    assert_eq!(engine.processed, vec![0]);
    assert_eq!(engine.workers, vec![WorkerState::Terminated]);
    assert_eq!(web_bench::throughput(0, 0), 0);
}

#[test]
fn pool_of_four_completes_hundred_tasks() {
    // A responsive target: all hundred tasks complete, none twice, and the
    // single aggregate report counts them all.
    let cfg = config(4, 100);
    let outcomes: Vec<bool> = vec![true; 100];
    let schedule: Vec<usize> = (0..100).map(|i| i % 4).collect();
    let (engine, report) = web_bench::run_batch(&cfg, &outcomes, &schedule);
    assert_eq!(report.dequeued, 100);
    assert_eq!(report.joined, 4);
    assert_eq!(report.succeeded, 100);
    assert_eq!(report.failed, 0);
    let total: usize = engine.processed.iter().sum();
    assert_eq!(total, 100);
    assert!(engine.workers.iter().all(|w| *w == WorkerState::Terminated));
    assert_eq!(engine.assignments.len(), 100);
}

#[test]
fn refused_connections_are_counted_not_fatal() {
    // A target that refuses every connection: the engine still finishes and
    // reports one hundred failures and no successes instead of aborting.
    let cfg = config(4, 100);
    let outcomes: Vec<bool> = vec![false; 100];
    let schedule: Vec<usize> = Vec::new();
    let (engine, report) = web_bench::run_batch(&cfg, &outcomes, &schedule);
    assert_eq!(report.dequeued, 100);
    assert_eq!(report.joined, 4);
    assert_eq!(report.succeeded, 0);
    assert_eq!(report.failed, 100);
    assert!(engine.workers.iter().all(|w| *w == WorkerState::Terminated));
}

#[test]
fn single_task_goes_to_exactly_one_of_two_workers() {
    // Two workers, one task: only one worker ever dequeues it; the other goes
    // straight from idle to terminated with zero tasks done.
    let cfg = config(2, 1);
    let outcomes: Vec<bool> = vec![true];
    let schedule: Vec<usize> = vec![0];
    let (engine, report) = web_bench::run_batch(&cfg, &outcomes, &schedule);
    assert_eq!(report.dequeued, 1);
    assert_eq!(report.joined, 2);
    assert_eq!(engine.assignments, vec![0]);
    assert_eq!(engine.processed, vec![1, 0]);

    // The same run with the other worker scheduled first mirrors the split.
    let schedule: Vec<usize> = vec![1];
    let (engine, _) = web_bench::run_batch(&cfg, &outcomes, &schedule);
    assert_eq!(engine.assignments, vec![1]);
    assert_eq!(engine.processed, vec![0, 1]);
}

#[test]
fn every_task_dequeued_once_and_every_worker_joined() {
    // Three workers, seven tasks: exactly seven dequeues, summing to seven
    // across the workers' own counters, and exactly three workers joined.
    let cfg = config(3, 7);
    let outcomes: Vec<bool> = vec![true, false, true, true, false, true, true];
    let schedule: Vec<usize> = vec![2, 0, 1, 1, 0, 2, 0];
    let (engine, report) = web_bench::run_batch(&cfg, &outcomes, &schedule);
    assert_eq!(report.dequeued, 7);
    assert_eq!(report.joined, 3);
    assert_eq!(report.succeeded, 5);
    assert_eq!(report.failed, 2);
    let total: usize = engine.processed.iter().sum();
    assert_eq!(total, 7);
}

#[test]
fn rerun_with_same_config_delivers_same_count() {
    // Re-running the whole lifecycle with the same configuration delivers the
    // same number of tasks, whatever the schedules or the outcomes.
    let cfg = config(2, 5);
    let outcomes_a: Vec<bool> = vec![true; 5];
    let outcomes_b: Vec<bool> = vec![false, true, false, true, false];
    let schedule_a: Vec<usize> = vec![0, 0, 1, 0, 1];
    let schedule_b: Vec<usize> = vec![1, 1, 1, 1, 1];
    let (first, second) =
        web_bench::rerun_delivers_same(&cfg, &outcomes_a, &schedule_a, &outcomes_b, &schedule_b);
    assert_eq!(first.dequeued, second.dequeued);
    assert_eq!(first.dequeued, 5);
    assert_eq!(first.joined, second.joined);
}

#[test]
fn manual_lifecycle_follows_the_state_machine() {
    let cfg = config(2, 0);
    let mut engine = AppEngine::new(&cfg);
    assert_eq!(engine.workers, vec![WorkerState::Idle, WorkerState::Idle]);

    // An open, empty queue would block a worker.
    assert_eq!(engine.poll(0), DequeueResult::Pending);
    assert_eq!(engine.workers[0], WorkerState::Idle);

    // Tasks are handed out in submission order, one worker each.
    assert!(engine.execute(Job::from_config(&cfg)).is_ok());
    assert!(engine.execute(Job::from_config(&cfg)).is_ok());
    assert_eq!(engine.poll(0), DequeueResult::Task(0));
    assert_eq!(engine.workers[0], WorkerState::Running);
    assert_eq!(engine.poll(1), DequeueResult::Task(1));
    engine.complete(0, true);
    engine.complete(1, false);
    assert_eq!(engine.succeeded, 1);
    assert_eq!(engine.failed, 1);
    assert_eq!(engine.assignments, vec![0, 1]);

    // Closing is the sole shutdown signal; every later poll observes it.
    engine.close();
    assert_eq!(engine.poll(0), DequeueResult::Closed);
    assert_eq!(engine.poll(1), DequeueResult::Closed);
    assert_eq!(engine.workers, vec![WorkerState::Terminated, WorkerState::Terminated]);
}

#[test]
fn submit_after_close_fails_loudly() {
    let cfg = config(1, 0);
    let mut engine = AppEngine::new(&cfg);
    engine.close();
    let refused = engine.execute(Job::from_config(&cfg));
    assert_eq!(refused, Err(EngineError::QueueClosed));
    assert_eq!(engine.jobs.len(), 0);
}

#[test]
fn close_and_shutdown_are_idempotent() {
    let cfg = config(2, 2);
    let mut engine = AppEngine::new(&cfg);
    for _ in 0..2 {
        engine.execute(Job::from_config(&cfg)).unwrap();
    }
    engine.close();
    engine.close();
    let outcomes: Vec<bool> = vec![true, true];
    let schedule: Vec<usize> = Vec::new();
    let first = engine.shutdown(&outcomes, &schedule);
    assert_eq!(first.dequeued, 2);
    assert_eq!(first.joined, 2);
    let second = engine.shutdown(&outcomes, &schedule);
    assert_eq!(second.dequeued, 2);
    assert_eq!(second.joined, 2);
    assert_eq!(second.succeeded, first.succeeded);
    assert_eq!(second.failed, first.failed);
}

#[test]
fn submitted_jobs_keep_their_own_config_copy() {
    let cfg = config(1, 0);
    let mut engine = AppEngine::new(&cfg);
    engine.execute(Job::from_config(&cfg)).unwrap();
    let job = engine.job(0);
    assert_eq!(job.addr, "127.0.0.1:8080");
    assert_eq!(job.method, "GET");
    assert_eq!(job.path, "/");
}

#[test]
fn zero_worker_pool_terminates_without_draining() {
    // A zero-worker engine joins instantly; submitted work is never drained —
    // the documented caller responsibility.
    let cfg = config(0, 0);
    let mut engine = AppEngine::new(&cfg);
    engine.execute(Job::from_config(&cfg)).unwrap();
    let outcomes: Vec<bool> = vec![true];
    let schedule: Vec<usize> = Vec::new();
    let report = engine.shutdown(&outcomes, &schedule);
    assert_eq!(report.joined, 0);
    assert_eq!(report.dequeued, 0);
    assert_eq!(engine.jobs.len(), 1);
}

#[test]
fn throughput_formula_and_zero_guard() {
    // requests * 1000 / elapsed, and a zero elapsed time is treated as one
    // millisecond instead of dividing by zero.
    assert_eq!(web_bench::throughput(100, 2000), 50);
    assert_eq!(web_bench::throughput(3, 7), 428);
    assert_eq!(web_bench::throughput(7, 0), 7000);
    assert_eq!(web_bench::throughput(0, 0), 0);
    assert_eq!(web_bench::throughput(usize::MAX, 1), usize::MAX as u128 * 1000);
}
