use ingest::schedule::{Producer, ProducerStatus, QueryState, TickPlan, Viewing};
use ingest::series::SUBSEC;

#[test]
fn status_is_set_only_where_it_is_as_expected() {
    let mut shared = ProducerStatus::Running;
    assert!(!ProducerStatus::compare_and_set(&mut shared, ProducerStatus::Exiting, ProducerStatus::Exited));
    assert_eq!(shared, ProducerStatus::Running);
    assert!(ProducerStatus::compare_and_set(&mut shared, ProducerStatus::Running, ProducerStatus::Exiting));
    assert_eq!(shared, ProducerStatus::Exiting);
    assert!(ProducerStatus::compare_and_set(&mut shared, ProducerStatus::Exiting, ProducerStatus::Exiting));
    assert_eq!(shared, ProducerStatus::Exiting);
    assert!(ProducerStatus::compare_and_set(&mut shared, ProducerStatus::Exiting, ProducerStatus::Exited));
    assert_eq!(shared, ProducerStatus::Exited);
}

#[test]
fn views_have_their_flags() {
    assert_eq!(Viewing::Proc.flag(), 0);
    assert_eq!(Viewing::Sys.flag(), 1);
    assert_eq!(Viewing::from_flag(0), Some(Viewing::Proc));
    assert_eq!(Viewing::from_flag(1), Some(Viewing::Sys));
    assert_eq!(Viewing::from_flag(2), None);
}

#[test]
fn processes_are_read_once_in_subsec_ticks() {
    let mut p = Producer::new();
    let mut reads = 0;
    for tick in 0..(3 * SUBSEC) {
        let plan = p.tick(Viewing::Proc);
        if plan.ingest_proc {
            reads += 1;
            assert_eq!(tick % SUBSEC, 0);
            assert!(plan.repaint);
        } else {
            assert!(!plan.repaint);
        }
    }
    assert_eq!(reads, 3);
}

#[test]
fn the_consumer_is_woken_every_tick_while_it_shows_the_system() {
    let mut p = Producer::new();
    assert_eq!(p.tick(Viewing::Sys), TickPlan { ingest_proc: true, repaint: true });
    assert_eq!(p.proc_counter, SUBSEC - 1);
    assert_eq!(p.tick(Viewing::Sys), TickPlan { ingest_proc: false, repaint: true });
    assert_eq!(p.tick(Viewing::Proc), TickPlan { ingest_proc: false, repaint: false });
    assert_eq!(p.proc_counter, SUBSEC - 3);
}

#[test]
fn ticks_that_are_due_are_caught_up_one_by_one() {
    let mut q = QueryState::new(1000, 200);
    assert!(q.is_due(1000));
    assert!(!q.is_due(999));
    assert_eq!(q.safe_sleep_duration(900), 100);
    assert_eq!(q.safe_sleep_duration(1000), 0);
    let now = 1450;
    let mut ticks = 0;
    while q.is_due(now) {
        q.poll_update();
        ticks += 1;
    }
    assert_eq!(ticks, 3);
    assert_eq!(q.next_update, 1600);
    assert_eq!(q.safe_sleep_duration(now), 150);
    assert_eq!(q.safe_sleep_duration(5000), 0);
}

#[test]
fn the_schedule_stops_at_the_end_of_the_clock() {
    let mut q = QueryState::new(u64::MAX - 5, 10);
    q.poll_update();
    assert_eq!(q.next_update, u64::MAX);
}
