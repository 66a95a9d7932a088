use metaboss::batch::pool::{DispatchPolicy, TaskEvent, TaskSlotPool, Ticket};

fn items(n: usize) -> Vec<String> {
    (0..n).map(|i| format!("item{}", i)).collect()
}

fn indices(tickets: &[Ticket]) -> Vec<usize> {
    tickets.iter().map(|t| t.index).collect()
}

#[test]
fn strict_pool_never_runs_more_than_its_slots() {
    let mut pool: TaskSlotPool<u32> = TaskSlotPool::new(items(10), 3, DispatchPolicy::StrictSemaphore);
    let mut running: Vec<Ticket> = Vec::new();
    let mut max_seen = 0;
    let mut steps = 0;
    while !pool.is_finished() {
        running.extend(pool.dispatch());
        assert_eq!(running.len(), pool.in_flight());
        assert!(pool.in_flight() <= 3);
        max_seen = max_seen.max(pool.in_flight());
        let done = running.remove(0);
        assert!(pool.complete(done.index, TaskEvent::Returned(Ok(done.index as u32))));
        steps += 1;
        assert!(steps <= 10);
    }
    assert_eq!(max_seen, 3);
    assert_eq!(pool.into_results().len(), 10);
}

#[test]
fn strict_pool_refills_one_slot_at_a_time() {
    let mut pool: TaskSlotPool<()> = TaskSlotPool::new(items(5), 2, DispatchPolicy::StrictSemaphore);
    assert_eq!(indices(&pool.dispatch()), vec![0, 1]);
    assert_eq!(indices(&pool.dispatch()), Vec::<usize>::new());
    assert!(pool.complete(1, TaskEvent::Returned(Ok(()))));
    let next = pool.dispatch();
    assert_eq!(indices(&next), vec![2]);
    assert_eq!(next[0].item, "item2");
    assert_eq!(pool.in_flight(), 2);
    assert_eq!(pool.backlog(), 2);
}

#[test]
fn watermark_pool_waits_until_more_than_half_is_free() {
    let mut pool: TaskSlotPool<()> = TaskSlotPool::new(items(10), 4, DispatchPolicy::WatermarkRefill);
    assert_eq!(indices(&pool.dispatch()), vec![0, 1, 2, 3]);
    assert!(pool.complete(0, TaskEvent::Returned(Ok(()))));
    assert_eq!(indices(&pool.dispatch()), Vec::<usize>::new());
    assert!(pool.complete(1, TaskEvent::Returned(Ok(()))));
    // two of four slots free: half, not more than half
    assert_eq!(indices(&pool.dispatch()), Vec::<usize>::new());
    assert!(pool.complete(2, TaskEvent::Returned(Ok(()))));
    // three free: refill exactly the free slots, never beyond the capacity
    assert_eq!(indices(&pool.dispatch()), vec![4, 5, 6]);
    assert_eq!(pool.in_flight(), 4);
    assert_eq!(pool.capacity(), 4);
}

#[test]
fn watermark_pool_starts_with_the_whole_backlog_when_it_is_small() {
    let mut pool: TaskSlotPool<()> = TaskSlotPool::new(items(2), 5, DispatchPolicy::WatermarkRefill);
    assert_eq!(indices(&pool.dispatch()), vec![0, 1]);
    assert_eq!(pool.backlog(), 0);
    assert!(!pool.is_finished());
}

#[test]
fn watermark_pool_with_one_slot_runs_one_by_one() {
    let mut pool: TaskSlotPool<()> = TaskSlotPool::new(items(3), 1, DispatchPolicy::WatermarkRefill);
    assert_eq!(indices(&pool.dispatch()), vec![0]);
    assert_eq!(indices(&pool.dispatch()), Vec::<usize>::new());
    assert!(pool.complete(0, TaskEvent::Returned(Ok(()))));
    assert_eq!(indices(&pool.dispatch()), vec![1]);
    assert!(pool.complete(1, TaskEvent::Returned(Ok(()))));
    assert_eq!(indices(&pool.dispatch()), vec![2]);
    assert!(pool.complete(2, TaskEvent::Returned(Ok(()))));
    assert!(pool.is_finished());
}

#[test]
fn pool_without_slots_hands_out_nothing() {
    let mut pool: TaskSlotPool<()> = TaskSlotPool::new(items(3), 0, DispatchPolicy::StrictSemaphore);
    assert!(pool.dispatch().is_empty());
    assert!(!pool.is_finished());
    let mut pool: TaskSlotPool<()> = TaskSlotPool::new(items(3), 0, DispatchPolicy::WatermarkRefill);
    assert!(pool.dispatch().is_empty());
    assert_eq!(pool.len(), 3);
}

#[test]
fn pool_over_no_items_is_finished_at_once() {
    let mut pool: TaskSlotPool<()> = TaskSlotPool::new(Vec::new(), 3, DispatchPolicy::StrictSemaphore);
    assert!(pool.is_finished());
    assert!(pool.dispatch().is_empty());
    assert!(pool.into_results().is_empty());
}

#[test]
fn pool_takes_each_report_once_and_only_for_running_items() {
    let mut pool: TaskSlotPool<()> = TaskSlotPool::new(items(4), 2, DispatchPolicy::StrictSemaphore);
    // nothing handed out yet
    assert!(!pool.complete(0, TaskEvent::Returned(Ok(()))));
    pool.dispatch();
    assert!(pool.complete(0, TaskEvent::Returned(Ok(()))));
    // a second report for the same item
    assert!(!pool.complete(0, TaskEvent::Returned(Err("late".to_string()))));
    // an item still pending, and a position outside the round
    assert!(!pool.complete(3, TaskEvent::Returned(Ok(()))));
    assert!(!pool.complete(99, TaskEvent::Returned(Ok(()))));
    assert_eq!(pool.in_flight(), 1);
    let results = pool.into_results();
    assert_eq!(results, vec![("item0".to_string(), Ok(()))]);
}

#[test]
fn finished_round_reports_every_item_exactly_once() {
    let given = vec!["c", "a", "b", "a", "d"];
    let mut pool: TaskSlotPool<usize> = TaskSlotPool::new(
        given.iter().map(|s| s.to_string()).collect(),
        2,
        DispatchPolicy::StrictSemaphore,
    );
    let mut running: Vec<Ticket> = Vec::new();
    while !pool.is_finished() {
        running.extend(pool.dispatch());
        // the latest started finishes first
        let done = running.pop().unwrap();
        let outcome = if done.index % 2 == 0 { Ok(done.index) } else { Err(format!("no {}", done.index)) };
        assert!(pool.complete(done.index, TaskEvent::Returned(outcome)));
    }
    let results = pool.into_results();
    assert_eq!(results.len(), given.len());
    let mut keys: Vec<String> = results.iter().map(|r| r.0.clone()).collect();
    keys.sort();
    assert_eq!(keys, vec!["a", "a", "b", "c", "d"]);
    // reports come in the order of completion: 1, 2, 3, 4, 0
    let order: Vec<&str> = results.iter().map(|r| r.0.as_str()).collect();
    assert_eq!(order, vec!["a", "b", "a", "d", "c"]);
    assert_eq!(results[0].1, Err("no 1".to_string()));
    assert_eq!(results[1].1, Ok(2));
    assert_eq!(results[4].1, Ok(0));
}

fn run_with_event_for_item_one(event_for_one: fn() -> TaskEvent<u32>) -> Vec<(String, Result<u32, String>)> {
    let mut pool: TaskSlotPool<u32> = TaskSlotPool::new(items(5), 2, DispatchPolicy::WatermarkRefill);
    let mut running: Vec<Ticket> = Vec::new();
    while !pool.is_finished() {
        running.extend(pool.dispatch());
        let done = running.remove(0);
        let event = if done.index == 1 {
            event_for_one()
        } else if done.index == 3 {
            TaskEvent::Returned(Err("three fails".to_string()))
        } else {
            TaskEvent::Returned(Ok(done.index as u32 * 10))
        };
        assert!(pool.complete(done.index, event));
    }
    pool.into_results()
}

#[test]
fn fault_of_one_item_leaves_the_others_as_they_are() {
    let with_fault = run_with_event_for_item_one(|| TaskEvent::Faulted("task panicked".to_string()));
    let without = run_with_event_for_item_one(|| TaskEvent::Returned(Ok(10)));
    assert_eq!(with_fault.len(), 5);
    assert_eq!(without.len(), 5);
    for k in 0..5 {
        assert_eq!(with_fault[k].0, without[k].0);
        if with_fault[k].0 != "item1" {
            assert_eq!(with_fault[k].1, without[k].1);
        }
    }
    assert_eq!(with_fault[1], ("item1".to_string(), Err("task panicked".to_string())));
    assert_eq!(without[1], ("item1".to_string(), Ok(10)));
    assert_eq!(with_fault[3], ("item3".to_string(), Err("three fails".to_string())));
    assert_eq!(with_fault[4], ("item4".to_string(), Ok(40)));
}

#[test]
fn fault_is_recorded_as_failure_with_its_message() {
    let event: TaskEvent<u8> = TaskEvent::Faulted("boom".to_string());
    assert_eq!(event.into_outcome(), Err("boom".to_string()));
    let event: TaskEvent<u8> = TaskEvent::Returned(Ok(7));
    assert_eq!(event.into_outcome(), Ok(7));
    let event: TaskEvent<u8> = TaskEvent::Returned(Err("refused".to_string()));
    assert_eq!(event.into_outcome(), Err("refused".to_string()));
}
