use futures::stream::iter_ok;
use futures::stream::iter_result;
use weighted_select::walk::needs_restart;
use weighted_select::walk::settle;
use weighted_select::Fused;
use weighted_select::Outcome;
use weighted_select::Source;

#[test]
fn item_moves_the_cursor_one_slot() {
    assert_eq!(settle::<u32, ()>(3, 7, false, Outcome::Item(5)), (4, Outcome::Item(5)));
    assert_eq!(settle::<u32, ()>(0, 1, true, Outcome::Item(9)), (1, Outcome::Item(9)));
    assert_eq!(settle::<u32, ()>(6, 7, true, Outcome::Item(0)), (7, Outcome::Item(0)));
}

#[test]
fn failure_moves_the_cursor_one_slot() {
    assert_eq!(settle::<u32, u8>(3, 7, false, Outcome::Failure(2)), (4, Outcome::Failure(2)));
    assert_eq!(settle::<u32, u8>(0, 7, true, Outcome::Failure(2)), (1, Outcome::Failure(2)));
}

#[test]
fn not_ready_skips_the_window() {
    assert_eq!(settle::<u32, ()>(3, 7, false, Outcome::NotReady), (7, Outcome::NotReady));
    assert_eq!(settle::<u32, ()>(3, 7, true, Outcome::NotReady), (7, Outcome::NotReady));
}

#[test]
fn completed_counts_only_above_exhausted_segments() {
    assert_eq!(settle::<u32, ()>(3, 7, false, Outcome::Completed), (7, Outcome::NotReady));
    assert_eq!(settle::<u32, ()>(3, 7, true, Outcome::Completed), (7, Outcome::Completed));
    assert_eq!(settle::<u32, ()>(0, 2, true, Outcome::Completed), (2, Outcome::Completed));
}

#[test]
fn restart_only_inside_a_lap_and_without_a_value() {
    assert!(needs_restart::<u32, ()>(1, &Outcome::NotReady));
    assert!(needs_restart::<u32, ()>(9, &Outcome::Completed));
    assert!(!needs_restart::<u32, ()>(0, &Outcome::NotReady));
    assert!(!needs_restart::<u32, ()>(0, &Outcome::Completed));
    assert!(!needs_restart::<u32, ()>(4, &Outcome::Item(1)));
    assert!(!needs_restart::<u32, u8>(4, &Outcome::Failure(1)));
    assert!(!needs_restart::<u32, ()>(0, &Outcome::Item(1)));
}

#[test]
fn values_are_items_and_failures() {
    assert!(Outcome::<u32, u8>::Item(1).is_value());
    assert!(Outcome::<u32, u8>::Failure(1).is_value());
    assert!(!Outcome::<u32, u8>::NotReady.is_value());
    assert!(!Outcome::<u32, u8>::Completed.is_value());
}

#[test]
fn adapter_hands_on_what_the_stream_gives() {
    let mut adapter = Fused::new(Source(Box::new(iter_result(vec![Ok(4u32), Err('x'), Ok(6)]))));

    assert_eq!(adapter.poll(), Outcome::Item(4));
    assert_eq!(adapter.poll(), Outcome::Failure('x'));
    assert_eq!(adapter.poll(), Outcome::Item(6));
    assert_eq!(adapter.poll(), Outcome::Completed);
    assert_eq!(adapter.poll(), Outcome::Completed);
}

#[test]
fn adapter_of_an_empty_stream_is_completed() {
    let mut adapter = Fused::new(Source(Box::new(iter_ok::<_, ()>(Vec::<u8>::new()))));

    assert_eq!(adapter.poll(), Outcome::Completed);
    assert_eq!(adapter.poll(), Outcome::Completed);
}
