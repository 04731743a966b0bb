use protohackers::jobs::centre::{JobCentre, JobRef, WorkerError};

fn queues(names: &[&str]) -> Vec<String> {
    names.iter().map(|s| s.to_string()).collect()
}

#[test]
fn test_put() {
    let mut job_centre = JobCentre::new();

    let _worker = job_centre.make_worker();

    let id = job_centre.put("queue1".to_string(), r#"{"name":"job"}"#.to_string(), 123);
    assert_eq!(id, 1);
}

#[test]
fn test_get() {
    let mut job_centre = JobCentre::new();

    let worker = job_centre.make_worker();

    let id1 = job_centre.put("queue1".to_string(), r#"{"name":"job1"}"#.to_string(), 123);
    let id2 = job_centre.put("queue1".to_string(), r#"{"name":"job2"}"#.to_string(), 100);

    let JobRef(target_id, _, target_priority, target_queue) =
        job_centre.get(worker, &queues(&["queue1", "queue2"])).unwrap();
    assert_eq!(id1, target_id);
    assert_eq!(123, target_priority);
    assert_eq!("queue1", target_queue);

    let job_ref = job_centre.get(worker, &queues(&["queue1", "queue2"])).unwrap();
    assert_eq!(id2, job_ref.0);
    assert_eq!(100, job_ref.2);
    assert_eq!("queue1", job_ref.3);

    assert_eq!(
        job_centre.get(worker, &queues(&["queue1", "queue2"])).unwrap_err(),
        WorkerError::NoJob
    );
}

#[test]
fn test_delete() {
    let mut job_centre = JobCentre::new();

    let _worker = job_centre.make_worker();

    let id = job_centre.put("queue1".to_string(), r#"{"name":"job"}"#.to_string(), 123);

    assert_eq!(Ok(()), job_centre.delete(id));
    assert_eq!(Err(WorkerError::NoJob), job_centre.delete(id));
}

#[test]
fn test_delete_from_other_worker() {
    let mut job_centre = JobCentre::new();

    let worker1 = job_centre.make_worker();

    let id = job_centre.put("queue1".to_string(), r#"{"name":"job"}"#.to_string(), 123);
    let _ = job_centre.get(worker1, &queues(&["queue1"])).unwrap();

    let _worker2 = job_centre.make_worker();
    assert_eq!(Ok(()), job_centre.delete(id));
}

#[test]
fn test_abort() {
    let mut job_centre = JobCentre::new();

    let worker = job_centre.make_worker();

    let id = job_centre.put("queue1".to_string(), r#"{"name":"job"}"#.to_string(), 123);
    let _ = job_centre.get(worker, &queues(&["queue1"])).unwrap();

    assert_eq!(Ok(()), job_centre.abort(worker, id));
    assert_eq!(Err(WorkerError::InvalidRequest), job_centre.abort(worker, id));
}

#[test]
fn test_abort_from_other_worker() {
    let mut job_centre = JobCentre::new();

    let worker1 = job_centre.make_worker();

    let id = job_centre.put("queue1".to_string(), r#"{"name":"job"}"#.to_string(), 123);
    let _ = job_centre.get(worker1, &queues(&["queue1"])).unwrap();

    let worker2 = job_centre.make_worker();
    assert_eq!(Err(WorkerError::InvalidRequest), job_centre.abort(worker2, id));

    assert_eq!(Ok(()), job_centre.abort(worker1, id));
}

#[test]
fn aborted_job_can_be_taken_again() {
    let mut job_centre = JobCentre::new();
    let worker = job_centre.make_worker();
    let id = job_centre.put("q".to_string(), "1".to_string(), 5);
    assert_eq!(job_centre.get(worker, &queues(&["q"])).unwrap().0, id);
    assert_eq!(job_centre.abort(worker, id), Ok(()));
    let again = job_centre.get(worker, &queues(&["q"])).unwrap();
    assert_eq!(again, JobRef(id, "1".to_string(), 5, "q".to_string()));
}

#[test]
fn highest_priority_across_queues_is_taken() {
    let mut job_centre = JobCentre::new();
    let worker = job_centre.make_worker();
    job_centre.put("a".to_string(), "1".to_string(), 5);
    let hi = job_centre.put("b".to_string(), "2".to_string(), 9);
    assert_eq!(job_centre.get(worker, &queues(&["a", "b"])).unwrap().0, hi);
}

#[test]
fn jobs_of_a_departed_worker_go_back() {
    let mut job_centre = JobCentre::new();
    let worker = job_centre.make_worker();
    let id = job_centre.put("q".to_string(), "1".to_string(), 5);
    job_centre.get(worker, &queues(&["q"])).unwrap();
    job_centre.remove_worker(worker);
    let other = job_centre.make_worker();
    assert_eq!(job_centre.get(other, &queues(&["q"])).unwrap().0, id);
}

#[test]
fn only_the_holder_aborts_and_only_once() {
    let mut job_centre = JobCentre::new();
    let holder = job_centre.make_worker();
    let other = job_centre.make_worker();
    let id = job_centre.put("q".to_string(), "1".to_string(), 7);
    assert_eq!(job_centre.get(holder, &queues(&["q"])).unwrap().0, id);
    assert_eq!(job_centre.abort(other, id), Err(WorkerError::InvalidRequest));
    assert_eq!(job_centre.abort(holder, id), Ok(()));
    assert_eq!(job_centre.abort(holder, id), Err(WorkerError::InvalidRequest));
    let again = job_centre.get(other, &queues(&["q"])).unwrap();
    assert_eq!((again.0, again.2), (id, 7));
}

#[test]
fn a_deleted_job_is_gone_for_good() {
    let mut job_centre = JobCentre::new();
    let holder = job_centre.make_worker();
    let id = job_centre.put("q".to_string(), "1".to_string(), 7);
    assert_eq!(job_centre.get(holder, &queues(&["q"])).unwrap().0, id);
    assert_eq!(job_centre.delete(id), Ok(()));
    assert_eq!(job_centre.delete(id), Err(WorkerError::NoJob));
    assert_eq!(job_centre.abort(holder, id), Err(WorkerError::InvalidRequest));
    assert_eq!(job_centre.get(holder, &queues(&["q"])).unwrap_err(), WorkerError::NoJob);
    assert_ne!(job_centre.put("q".to_string(), "2".to_string(), 1), id);
}

#[test]
fn default_centre_is_empty() {
    let mut job_centre = JobCentre::default();
    assert_eq!(job_centre.next_job_id(), 1);
    assert_eq!(job_centre.next_worker_id(), 0);
    let worker = job_centre.make_worker();
    assert_eq!(job_centre.get(worker, &queues(&["q"])).unwrap_err(), WorkerError::NoJob);
}
