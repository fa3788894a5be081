use data_aggregator::aggregator::{
    Aggregator, AggregatorAction, AggregatorEvent, AggregatorPhase, QUEUE_CAPACITY,
};
use data_aggregator::clause::ClauseData;
use data_aggregator::config::{is_whitespace, parse_instance_config, split_flags};
use data_aggregator::launch::{socket_flag, solver_arguments};
use data_aggregator::supervisor::{PoolAction, PoolEvent, PoolPhase, Supervisor};
use data_aggregator::watchdog::{
    InstanceStatus, MemoryBudget, Watchdog, WatchdogAction, WatchdogEvent, SAMPLE_INTERVAL_SECS,
};
use data_aggregator::wire::decode_stream;

fn record(literals: &[i32], lbd: i32) -> AggregatorEvent {
    AggregatorEvent::Record(ClauseData { literals: literals.to_vec(), lbd })
}

#[test]
fn budget_is_split_evenly_rounding_down() {
    let budget = MemoryBudget::new(1000, 3).unwrap();
    assert_eq!(budget.total_kb(), 1000);
    assert_eq!(budget.parallel(), 3);
    assert_eq!(budget.per_instance_kb(), 333);
    assert_eq!(MemoryBudget::new(8192, 2).unwrap().per_instance_kb(), 4096);
    assert_eq!(MemoryBudget::new(5, 10).unwrap().per_instance_kb(), 0);
    assert_eq!(MemoryBudget::new(u64::MAX, 1).unwrap().per_instance_kb(), u64::MAX);
}

#[test]
fn budget_for_no_instance_is_refused() {
    assert!(MemoryBudget::new(1000, 0).is_none());
    assert!(MemoryBudget::new(0, 0).is_none());
    assert!(MemoryBudget::new(0, 1).is_some());
}

#[test]
fn sample_at_the_ceiling_is_within_budget() {
    let budget = MemoryBudget::new(8192, 2).unwrap();
    assert!(!budget.exceeded_by(0));
    assert!(!budget.exceeded_by(4095));
    assert!(!budget.exceeded_by(4096));
    assert!(budget.exceeded_by(4097));
    assert!(budget.exceeded_by(u64::MAX));
}

#[test]
fn samples_are_taken_every_second() {
    assert_eq!(SAMPLE_INTERVAL_SECS, 1);
}

#[test]
fn watchdog_kills_on_the_first_sample_over_the_ceiling() {
    let mut dog = Watchdog::new(MemoryBudget::new(8192, 2).unwrap());
    assert!(dog.is_running());
    assert_eq!(dog.observe(WatchdogEvent::Sampled(100)), WatchdogAction::KeepWatching);
    assert_eq!(dog.observe(WatchdogEvent::Sampled(4096)), WatchdogAction::KeepWatching);
    assert_eq!(dog.status(), InstanceStatus::Running);
    assert_eq!(dog.observe(WatchdogEvent::Sampled(4097)), WatchdogAction::Terminate);
    assert_eq!(dog.status(), InstanceStatus::Killed);
    assert!(!dog.is_running());
    assert_eq!(dog.observe(WatchdogEvent::Sampled(9999)), WatchdogAction::Stop);
    assert_eq!(dog.observe(WatchdogEvent::Exited), WatchdogAction::Stop);
    assert_eq!(dog.status(), InstanceStatus::Killed);
}

#[test]
fn watchdog_stops_when_the_instance_ends() {
    let mut dog = Watchdog::new(MemoryBudget::new(100, 1).unwrap());
    assert_eq!(dog.observe(WatchdogEvent::Sampled(100)), WatchdogAction::KeepWatching);
    assert_eq!(dog.observe(WatchdogEvent::Exited), WatchdogAction::Stop);
    assert_eq!(dog.status(), InstanceStatus::Exited);
    assert_eq!(dog.observe(WatchdogEvent::Sampled(1000)), WatchdogAction::Stop);
    assert_eq!(dog.status(), InstanceStatus::Exited);
}

#[test]
fn watchdog_stops_quietly_when_the_process_is_gone() {
    let mut dog = Watchdog::new(MemoryBudget::new(100, 1).unwrap());
    assert_eq!(dog.observe(WatchdogEvent::Vanished), WatchdogAction::Stop);
    assert_eq!(dog.status(), InstanceStatus::Vanished);
    assert_eq!(dog.observe(WatchdogEvent::Vanished), WatchdogAction::Stop);
}

#[test]
fn arguments_come_in_the_documented_order() {
    let solver_flags = vec!["--quiet".to_string(), "-t".to_string(), "30".to_string()];
    let instance_flags = vec!["--seed=4".to_string()];
    let args = solver_arguments("problem.cnf", &solver_flags, &instance_flags, "/tmp/x.sock");
    assert_eq!(
        args,
        vec!["problem.cnf", "--quiet", "-t", "30", "--seed=4", "--lbd-socket-path", "/tmp/x.sock"]
    );
    let bare = solver_arguments("p", &vec![], &vec![], "s");
    assert_eq!(bare, vec!["p", "--lbd-socket-path", "s"]);
    assert_eq!(socket_flag(), "--lbd-socket-path");
}

fn drive(instances: usize, parallel: u32) -> (usize, u32, usize) {
    let mut pool = Supervisor::new(instances, parallel);
    let mut launched = Vec::new();
    let mut peak = 0u32;
    let mut signals = 0usize;
    let mut event = PoolEvent::Poll;
    let mut steps = 0usize;
    loop {
        steps += 1;
        assert!(steps < 10 * instances + 10);
        let action = pool.step(event);
        assert!(pool.running() <= parallel);
        peak = peak.max(pool.running());
        match action {
            PoolAction::Launch(i) => {
                assert_eq!(i, launched.len());
                launched.push(i);
                event = PoolEvent::Poll;
            }
            PoolAction::Wait => {
                assert!(pool.running() > 0);
                event = PoolEvent::InstanceEnded;
            }
            PoolAction::SignalCompletion => {
                signals += 1;
                assert_eq!(pool.phase(), PoolPhase::Completed);
                assert_eq!(pool.running(), 0);
                assert_eq!(pool.pending(), 0);
                break;
            }
            PoolAction::Abort | PoolAction::Halt => panic!("unexpected {:?}", action),
        }
    }
    assert_eq!(pool.step(PoolEvent::Poll), PoolAction::Halt);
    assert_eq!(pool.step(PoolEvent::InstanceEnded), PoolAction::Halt);
    (launched.len(), peak, signals)
}

#[test]
fn never_more_than_the_bound_run_at_once() {
    assert_eq!(drive(7, 3), (7, 3, 1));
    assert_eq!(drive(2, 5), (2, 2, 1));
    assert_eq!(drive(5, 1), (5, 1, 1));
    assert_eq!(drive(64, 8), (64, 8, 1));
}

#[test]
fn no_instances_complete_at_once() {
    let mut pool = Supervisor::new(0, 2);
    assert_eq!(pool.step(PoolEvent::Poll), PoolAction::SignalCompletion);
    assert_eq!(pool.phase(), PoolPhase::Completed);
    assert_eq!(pool.step(PoolEvent::Poll), PoolAction::Halt);
    let mut none = Supervisor::new(0, 0);
    assert_eq!(none.step(PoolEvent::Poll), PoolAction::SignalCompletion);
}

#[test]
fn pool_fills_up_then_waits() {
    let mut pool = Supervisor::new(3, 2);
    assert_eq!(pool.pending(), 3);
    assert_eq!(pool.step(PoolEvent::Poll), PoolAction::Launch(0));
    assert_eq!(pool.step(PoolEvent::Poll), PoolAction::Launch(1));
    assert_eq!(pool.step(PoolEvent::Poll), PoolAction::Wait);
    assert_eq!(pool.running(), 2);
    assert_eq!(pool.launched(), 2);
    assert_eq!(pool.pending(), 1);
    assert_eq!(pool.step(PoolEvent::InstanceEnded), PoolAction::Launch(2));
    assert_eq!(pool.step(PoolEvent::Poll), PoolAction::Wait);
    assert_eq!(pool.step(PoolEvent::InstanceEnded), PoolAction::Wait);
    assert_eq!(pool.running(), 1);
    assert_eq!(pool.step(PoolEvent::InstanceEnded), PoolAction::SignalCompletion);
    assert_eq!(pool.step(PoolEvent::InstanceEnded), PoolAction::Halt);
}

#[test]
fn spawn_failure_aborts_the_run() {
    let mut pool = Supervisor::new(5, 2);
    assert_eq!(pool.step(PoolEvent::Poll), PoolAction::Launch(0));
    assert_eq!(pool.step(PoolEvent::Poll), PoolAction::Launch(1));
    assert_eq!(pool.step(PoolEvent::SpawnFailed), PoolAction::Abort);
    assert_eq!(pool.phase(), PoolPhase::Aborted);
    assert_eq!(pool.running(), 1);
    assert_eq!(pool.launched(), 2);
    assert_eq!(pool.step(PoolEvent::Poll), PoolAction::Halt);
    assert_eq!(pool.step(PoolEvent::InstanceEnded), PoolAction::Halt);
    assert_eq!(pool.launched(), 2);
}

#[test]
fn pool_without_slots_launches_nothing() {
    let mut pool = Supervisor::new(2, 0);
    assert_eq!(pool.step(PoolEvent::Poll), PoolAction::Wait);
    assert_eq!(pool.running(), 0);
    assert_eq!(pool.launched(), 0);
}

#[test]
fn stray_end_reports_are_ignored() {
    let mut pool = Supervisor::new(1, 1);
    assert_eq!(pool.step(PoolEvent::InstanceEnded), PoolAction::Launch(0));
    assert_eq!(pool.running(), 1);
}

#[test]
fn queue_capacity() {
    assert_eq!(QUEUE_CAPACITY, 10000);
}

#[test]
fn aggregator_collects_until_completion() {
    let mut agg = Aggregator::new();
    assert_eq!(agg.phase(), AggregatorPhase::Collecting);
    for v in [3, 5, 7] {
        let ev = record(&[1, 2], v);
        assert!(agg.can_take(&ev));
        assert_eq!(agg.on_event(ev), AggregatorAction::Continue);
    }
    assert_eq!(agg.on_event(AggregatorEvent::AllFinished), AggregatorAction::Finish);
    assert_eq!(agg.phase(), AggregatorPhase::Completed);
    let rows = agg.report();
    assert_eq!(rows.len(), 1);
    assert_eq!(rows[0].count, 3);
    assert_eq!(rows[0].mean.num as f64 / rows[0].mean.den as f64, 5.0);
    assert_eq!(rows[0].variance.num as f64 / rows[0].variance.den as f64, 4.0);
    assert_eq!(rows[0].clause_len, 2);
    assert_eq!(agg.data().len(), 1);
}

#[test]
fn interrupt_keeps_what_was_received_and_ignores_the_rest() {
    let mut agg = Aggregator::new();
    assert_eq!(agg.on_event(record(&[1], 2)), AggregatorAction::Continue);
    assert_eq!(agg.on_event(record(&[1], 4)), AggregatorAction::Continue);
    assert_eq!(agg.on_event(AggregatorEvent::Interrupted), AggregatorAction::Finish);
    assert_eq!(agg.phase(), AggregatorPhase::Interrupted);
    let late = record(&[1], 100);
    assert!(agg.can_take(&late));
    assert_eq!(agg.on_event(late), AggregatorAction::Finish);
    assert_eq!(agg.on_event(AggregatorEvent::AllFinished), AggregatorAction::Finish);
    assert_eq!(agg.phase(), AggregatorPhase::Interrupted);
    let map = agg.into_data();
    let stats = map.get(&vec![1]).unwrap();
    assert_eq!(stats.final_count(), 2);
    assert_eq!(stats.final_mean().num, 6);
}

#[test]
fn interrupt_mid_record_reports_only_whole_records() {
    let mut stream: Vec<u8> = Vec::new();
    let clauses: Vec<(Vec<i32>, i32)> = vec![(vec![1, 2], 3), (vec![2, 1], 5), (vec![1, 2], 7)];
    for (lits, metric) in clauses {
        let mut words: Vec<i32> = lits;
        words.push(0);
        words.push(metric);
        for w in words {
            stream.extend_from_slice(&w.to_le_bytes());
        }
    }
    let received = &stream[..stream.len() - 3];
    let decoded = decode_stream(received);
    let mut agg = Aggregator::new();
    for data in decoded.records {
        assert_eq!(agg.on_event(AggregatorEvent::Record(data)), AggregatorAction::Continue);
    }
    assert_eq!(agg.on_event(AggregatorEvent::Interrupted), AggregatorAction::Finish);
    let rows = agg.report();
    assert_eq!(rows.len(), 1);
    assert_eq!(rows[0].count, 2);
    assert_eq!(rows[0].mean.num, 8);
    assert_eq!(rows[0].variance.num, 4);
    assert_eq!(rows[0].variance.den, 2);
}

#[test]
fn zero_instances_give_an_empty_report() {
    let mut pool = Supervisor::new(0, 2);
    let mut agg = Aggregator::new();
    assert_eq!(pool.step(PoolEvent::Poll), PoolAction::SignalCompletion);
    assert_eq!(agg.on_event(AggregatorEvent::AllFinished), AggregatorAction::Finish);
    assert!(agg.report().is_empty());
    assert_eq!(agg.into_data().len(), 0);
}

#[test]
fn lost_queue_is_a_failure() {
    let mut agg = Aggregator::new();
    assert_eq!(agg.on_event(record(&[1], 2)), AggregatorAction::Continue);
    assert_eq!(agg.on_event(AggregatorEvent::ChannelClosed), AggregatorAction::Fail);
    assert_eq!(agg.phase(), AggregatorPhase::Broken);
    assert_eq!(agg.on_event(AggregatorEvent::AllFinished), AggregatorAction::Fail);
    assert_eq!(agg.on_event(record(&[1], 2)), AggregatorAction::Fail);
    assert_eq!(agg.data().get(&vec![1]).unwrap().final_count(), 1);
}

fn chars(s: &str) -> Vec<char> {
    s.chars().collect()
}

fn strings(lists: Vec<Vec<Vec<char>>>) -> Vec<Vec<String>> {
    lists
        .into_iter()
        .map(|l| l.into_iter().map(|w| w.into_iter().collect::<String>()).collect())
        .collect()
}

fn by_std(text: &str) -> Vec<Vec<String>> {
    text.split_terminator('\n')
        .map(|s| s.split_whitespace().map(|s| s.to_owned()).collect::<Vec<_>>())
        .collect()
}

#[test]
fn whitespace_is_what_std_says() {
    for code in 0..=0x10FFFFu32 {
        if let Some(c) = char::from_u32(code) {
            assert_eq!(is_whitespace(c), c.is_whitespace(), "U+{:04X}", code);
        }
    }
}

#[test]
fn flags_are_split_at_whitespace() {
    let flags = split_flags(&chars("  --a=1\t-b   c\u{3000}d "));
    let flags: Vec<String> = flags.into_iter().map(|w| w.into_iter().collect()).collect();
    assert_eq!(flags, vec!["--a=1", "-b", "c", "d"]);
    assert!(split_flags(&chars("")).is_empty());
    assert!(split_flags(&chars(" \t ")).is_empty());
}

#[test]
fn each_line_is_one_instance() {
    let got = strings(parse_instance_config(&chars("--a 1\n--b\n\n  --c   2  \n")));
    assert_eq!(
        got,
        vec![
            vec!["--a".to_string(), "1".to_string()],
            vec!["--b".to_string()],
            vec![],
            vec!["--c".to_string(), "2".to_string()],
        ]
    );
}

#[test]
fn config_parsing_agrees_with_std() {
    let texts = [
        "",
        "\n",
        "\n\n",
        "a",
        "a\n",
        "a\nb",
        "a\nb\n",
        "a\n\nb",
        "\na",
        " \n ",
        "a b\r\nc  d\r\n",
        "--x=1 --y\n\t--z\u{a0}w\n\n\nlast line here",
        "one\u{2028}two\nthree\u{85}four\n",
        "  lead\ntrail  \n  both  ",
    ];
    for text in texts {
        assert_eq!(strings(parse_instance_config(&chars(text))), by_std(text), "{:?}", text);
    }
}

#[test]
fn lost_supervisor_does_not_end_the_collection() {
    let mut agg = Aggregator::new();
    assert!(agg.awaits_completion());
    assert_eq!(agg.on_event(record(&[1], 2)), AggregatorAction::Continue);
    assert_eq!(agg.on_event(AggregatorEvent::CompletionLost), AggregatorAction::Continue);
    assert_eq!(agg.phase(), AggregatorPhase::Collecting);
    assert!(!agg.awaits_completion());
    assert_eq!(agg.on_event(record(&[1], 4)), AggregatorAction::Continue);
    assert_eq!(agg.on_event(AggregatorEvent::Interrupted), AggregatorAction::Finish);
    assert_eq!(agg.on_event(AggregatorEvent::CompletionLost), AggregatorAction::Finish);
    assert_eq!(agg.phase(), AggregatorPhase::Interrupted);
    assert_eq!(agg.data().get(&vec![1]).unwrap().final_count(), 2);
}
