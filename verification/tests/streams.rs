use futures::stream::iter_ok;
use futures::stream::iter_result;
use futures::task;
use futures::Async;
use futures::Poll;
use futures::Stream;
use weighted_select::IncompleteSelect;
use weighted_select::Outcome;
use weighted_select::Select;
use weighted_select::Source;

/// The merged source as a stream of `futures`, so that it can be driven by
/// `wait`.
struct Merged<N>(Select<N>);

impl<N: IncompleteSelect> Stream for Merged<N> {
    type Item = N::Item;
    type Error = N::Error;

    fn poll(&mut self) -> Poll<Option<N::Item>, N::Error> {
        match self.0.poll() {
            Outcome::Item(item) => Ok(Async::Ready(Some(item))),
            Outcome::NotReady => Ok(Async::NotReady),
            Outcome::Completed => Ok(Async::Ready(None)),
            Outcome::Failure(error) => Err(error),
        }
    }
}

fn source<'a, S: Stream + 'a>(stream: S) -> Source<'a, S::Item, S::Error> {
    Source(Box::new(stream))
}

struct WithBreaks<S> {
    stream: S,
    flag: bool,
}

impl<S> WithBreaks<S> {
    fn new(stream: S) -> WithBreaks<S> {
        WithBreaks {
            stream,
            flag: false,
        }
    }
}

impl<S: Stream> Stream for WithBreaks<S> {
    type Item = S::Item;
    type Error = S::Error;

    fn poll(&mut self) -> Poll<Option<Self::Item>, Self::Error> {
        self.flag = !self.flag;

        if self.flag {
            self.stream.poll()
        } else {
            task::current().notify();
            Ok(Async::NotReady)
        }
    }
}

#[test]
fn empty_select() {
    let select = weighted_select::new::<(), ()>().build();

    let mut stream = Merged(select).wait();

    assert_eq!(stream.next(), None);
    assert_eq!(stream.next(), None);
}

#[test]
fn only_one_part() {
    let select = weighted_select::new()
        .append(source(iter_ok::<_, ()>(vec![1u32, 2])), 1)
        .build();

    let mut stream = Merged(select).wait();

    assert_eq!(stream.next(), Some(Ok(1)));
    assert_eq!(stream.next(), Some(Ok(2)));
    assert_eq!(stream.next(), None);
}

#[test]
fn three_parts() {
    let select = weighted_select::new()
        .append(source(iter_ok::<_, ()>(vec![1u32, 1])), 1)
        .append(source(iter_ok(vec![2, 2, 2])), 3)
        .append(source(iter_ok(vec![3, 3, 3, 3])), 1)
        .build();

    let actual = Merged(select).wait().collect::<Result<Vec<_>, _>>().unwrap();

    assert_eq!(actual, vec![1, 2, 2, 2, 3, 1, 3, 3, 3]);
}

fn append_data<'a>(
    builder: impl IncompleteSelect<Item = u32, Error = ()> + 'a,
    data: Vec<u32>,
    weight: u32,
) -> impl IncompleteSelect<Item = u32, Error = ()> + 'a {
    builder.append(source(iter_ok(data)), weight)
}

#[test]
fn incremental_build() {
    let select = weighted_select::new();
    let select = append_data(select, vec![1u32, 1], 1);
    let select = append_data(select, vec![2, 2, 2], 3);
    let select = append_data(select, vec![3, 3, 3, 3], 1);
    let select = select.build();

    let actual = Merged(select).wait().collect::<Result<Vec<_>, _>>().unwrap();

    assert_eq!(actual, vec![1, 2, 2, 2, 3, 1, 3, 3, 3]);
}

#[test]
fn three_parts_with_breaks() {
    let select = weighted_select::new()
        .append(source(WithBreaks::new(iter_ok::<_, ()>(vec![1u32, 1]))), 1)
        .append(source(WithBreaks::new(iter_ok(vec![2, 2, 2]))), 3)
        .append(source(WithBreaks::new(iter_ok(vec![3, 3, 3, 3]))), 1)
        .build();

    let actual = Merged(select).wait().collect::<Result<Vec<_>, _>>().unwrap();

    assert_eq!(actual, vec![1, 2, 3, 2, 1, 2, 3, 3, 3]);

    let select = weighted_select::new()
        .append(source(iter_ok::<_, ()>(vec![1u32, 1])), 1)
        .append(source(WithBreaks::new(iter_ok(vec![2, 2, 2]))), 3)
        .append(source(iter_ok(vec![3, 3, 3, 3])), 1)
        .build();

    let actual = Merged(select).wait().collect::<Result<Vec<_>, _>>().unwrap();

    assert_eq!(actual, vec![1, 2, 3, 1, 2, 3, 2, 3, 3]);
}

fn drain<N: IncompleteSelect>(
    select: &mut Select<N>,
    polls: usize,
) -> Vec<Outcome<N::Item, N::Error>> {
    let mut seen = Vec::new();
    for _ in 0..polls {
        seen.push(select.poll());
    }
    seen
}

#[test]
fn completed_stays_completed() {
    let mut select = weighted_select::new()
        .append(source(iter_ok::<_, ()>(vec![1u32])), 2)
        .append(source(iter_ok(vec![2u32, 2])), 1)
        .build();

    assert_eq!(
        drain(&mut select, 3),
        vec![Outcome::Item(1), Outcome::Item(2), Outcome::Item(2)]
    );
    for _ in 0..10 {
        assert_eq!(select.poll(), Outcome::Completed);
    }
}

#[test]
fn empty_chain_completes_at_once() {
    let mut select = weighted_select::new::<u8, ()>().build();

    assert_eq!(select.cycle_length(), 1);
    for _ in 0..5 {
        assert_eq!(select.poll(), Outcome::Completed);
    }
}

#[test]
fn single_source_comes_out_unchanged() {
    for weight in [1u32, 2, 3, 5, 4_000_000_000] {
        let select = weighted_select::new()
            .append(source(iter_ok::<_, ()>(vec![7u32, 8, 9, 7, 1])), weight)
            .build();

        let actual = Merged(select).wait().collect::<Result<Vec<_>, _>>().unwrap();

        assert_eq!(actual, vec![7, 8, 9, 7, 1]);
    }
}

#[test]
fn single_source_with_breaks_comes_out_unchanged() {
    for weight in [1u32, 2, 4] {
        let select = weighted_select::new()
            .append(source(WithBreaks::new(iter_ok::<_, ()>(vec![7u32, 8, 9]))), weight)
            .build();

        let actual = Merged(select).wait().collect::<Result<Vec<_>, _>>().unwrap();

        assert_eq!(actual, vec![7, 8, 9]);
    }
}

#[test]
fn laps_follow_the_weights() {
    let select = weighted_select::new()
        .append(source(iter_ok::<_, ()>(vec!['a'; 4])), 2)
        .append(source(iter_ok(vec!['b'; 6])), 3)
        .build();

    let actual = Merged(select).wait().collect::<Result<Vec<_>, _>>().unwrap();

    assert_eq!(actual, vec!['a', 'a', 'b', 'b', 'b', 'a', 'a', 'b', 'b', 'b']);
}

#[test]
fn exhausted_source_leaves_its_window_to_the_next() {
    let mut select = weighted_select::new()
        .append(source(iter_ok::<_, ()>(vec![1u32])), 2)
        .append(source(iter_ok(vec![2u32, 2, 2, 2])), 1)
        .append(source(iter_ok(vec![3u32, 3])), 1)
        .build();

    let seen = drain(&mut select, 8);

    assert_eq!(
        seen,
        vec![
            Outcome::Item(1),
            Outcome::Item(2),
            Outcome::Item(3),
            Outcome::Item(2),
            Outcome::Item(3),
            Outcome::Item(2),
            Outcome::Item(2),
            Outcome::Completed,
        ]
    );
}

fn round_robin(mut left: [u16; 3], weights: [u16; 3]) -> Vec<u8> {
    let names = [b'a', b'b', b'c'];
    let mut expected = Vec::new();
    while left.iter().any(|&n| n > 0) {
        for i in 0..3 {
            for _ in 0..weights[i].min(left[i]) {
                expected.push(names[i]);
            }
            left[i] = left[i].saturating_sub(weights[i]);
        }
    }
    expected
}

#[test]
fn distribution() {
    let counts = [0u16, 1, 2, 5, 9];
    let weights = [1u16, 2, 3, 7];
    for &an in &counts {
        for &bn in &counts {
            for &cn in &counts {
                for &aw in &weights {
                    for &bw in &weights {
                        for &cw in &weights {
                            let select = weighted_select::new()
                                .append(
                                    source(iter_ok::<_, ()>(vec![b'a'; an as usize])),
                                    u32::from(aw),
                                )
                                .append(source(iter_ok(vec![b'b'; bn as usize])), u32::from(bw))
                                .append(source(iter_ok(vec![b'c'; cn as usize])), u32::from(cw))
                                .build();

                            let actual =
                                Merged(select).wait().collect::<Result<Vec<_>, _>>().unwrap();

                            assert_eq!(actual, round_robin([an, bn, cn], [aw, bw, cw]));
                        }
                    }
                }
            }
        }
    }
}

#[test]
fn distribution_of_larger_sources() {
    let select = weighted_select::new()
        .append(source(iter_ok::<_, ()>(vec![b'a'; 1000])), 255)
        .append(source(iter_ok(vec![b'b'; 3])), 1)
        .append(source(iter_ok(vec![b'c'; 700])), 13)
        .build();

    let actual = Merged(select).wait().collect::<Result<Vec<_>, _>>().unwrap();

    assert_eq!(actual.len(), 1703);
    assert_eq!(actual, round_robin([1000, 3, 700], [255, 1, 13]));
}

#[test]
fn failure_is_handed_on_and_moves_the_cursor_one_slot() {
    let mut select = weighted_select::new()
        .append(source(iter_result(vec![Err("broken"), Ok(1u32), Ok(2)])), 2)
        .append(source(iter_result(vec![Ok(10u32), Ok(20)])), 1)
        .build();

    let seen = drain(&mut select, 6);

    assert_eq!(
        seen,
        vec![
            Outcome::Failure("broken"),
            Outcome::Item(1),
            Outcome::Item(10),
            Outcome::Item(2),
            Outcome::Item(20),
            Outcome::Completed,
        ]
    );
}

#[test]
fn failure_through_the_stream_interface() {
    let select = weighted_select::new()
        .append(source(iter_result(vec![Ok(1u32), Err(5u8), Ok(2)])), 1)
        .build();

    let seen = Merged(select).wait().collect::<Vec<_>>();

    assert_eq!(seen, vec![Ok(1), Err(5), Ok(2)]);
}

#[test]
fn breaks_keep_the_order_of_each_source() {
    let first: Vec<(u8, u32)> = (0..7).map(|k| (0, k)).collect();
    let second: Vec<(u8, u32)> = (0..5).map(|k| (1, k)).collect();
    let third: Vec<(u8, u32)> = (0..9).map(|k| (2, k)).collect();
    let select = weighted_select::new()
        .append(source(WithBreaks::new(iter_ok::<_, ()>(first.clone()))), 2)
        .append(source(iter_ok(second.clone())), 3)
        .append(source(WithBreaks::new(iter_ok(third.clone()))), 1)
        .build();

    let actual = Merged(select).wait().collect::<Result<Vec<_>, _>>().unwrap();

    assert_eq!(actual.len(), 21);
    for (name, wanted) in [(0u8, first), (1, second), (2, third)] {
        let got: Vec<(u8, u32)> = actual.iter().cloned().filter(|item| item.0 == name).collect();
        assert_eq!(got, wanted);
    }
}

/// A stream that must not be polled once it has finished.
struct Strict {
    left: u32,
    finished: bool,
}

impl Stream for Strict {
    type Item = u32;
    type Error = ();

    fn poll(&mut self) -> Poll<Option<u32>, ()> {
        assert!(!self.finished);
        if self.left == 0 {
            self.finished = true;
            Ok(Async::Ready(None))
        } else {
            self.left -= 1;
            Ok(Async::Ready(Some(self.left)))
        }
    }
}

#[test]
fn finished_source_is_not_polled_again() {
    let mut select = weighted_select::new()
        .append(source(Strict { left: 1, finished: false }), 3)
        .append(source(Strict { left: 4, finished: false }), 1)
        .append(source(Strict { left: 0, finished: false }), 2)
        .build();

    let seen = drain(&mut select, 9);

    assert_eq!(
        seen,
        vec![
            Outcome::Item(0),
            Outcome::Item(3),
            Outcome::Item(2),
            Outcome::Item(1),
            Outcome::Item(0),
            Outcome::Completed,
            Outcome::Completed,
            Outcome::Completed,
            Outcome::Completed,
        ]
    );
}

#[test]
fn weights_add_up_to_the_lap() {
    let chain = weighted_select::new::<u32, ()>();
    assert_eq!(chain.cumulative_weight(), 0);
    let chain = chain.append(source(iter_ok(vec![1u32])), 1);
    assert_eq!(chain.cumulative_weight(), 1);
    let chain = chain.append(source(iter_ok(vec![2u32])), 3);
    assert_eq!(chain.cumulative_weight(), 4);
    let chain = chain.append(source(iter_ok(vec![3u32])), 4_294_967_295);
    assert_eq!(chain.cumulative_weight(), 4_294_967_299);
    let select = chain.build();
    assert_eq!(select.cycle_length(), 4_294_967_299);
}

#[test]
fn walk_reports_the_cursor() {
    let mut chain = weighted_select::new()
        .append(source(iter_ok::<_, ()>(vec![1u32, 1])), 1)
        .append(source(iter_ok(vec![2u32, 2, 2])), 3)
        .append(source(iter_ok(vec![3u32, 3, 3, 3])), 1);

    assert_eq!(chain.poll_chain(0), (1, Outcome::Item(1)));
    assert_eq!(chain.poll_chain(1), (2, Outcome::Item(2)));
    assert_eq!(chain.poll_chain(2), (3, Outcome::Item(2)));
    assert_eq!(chain.poll_chain(3), (4, Outcome::Item(2)));
    assert_eq!(chain.poll_chain(4), (5, Outcome::Item(3)));
    assert_eq!(chain.poll_chain(0), (1, Outcome::Item(1)));
    // The second source is exhausted, so its window goes to the third.
    assert_eq!(chain.poll_chain(1), (5, Outcome::Item(3)));
    // From the start of the lap both exhausted sources are passed over.
    assert_eq!(chain.poll_chain(0), (5, Outcome::Item(3)));
    // Inside the lap an exhausted chain only says that nothing is ready.
    assert_eq!(chain.poll_chain(4), (5, Outcome::Item(3)));
    assert_eq!(chain.poll_chain(4), (5, Outcome::NotReady));
    assert_eq!(chain.poll_chain(2), (5, Outcome::NotReady));
    assert_eq!(chain.poll_chain(0), (5, Outcome::Completed));
}

#[test]
fn walk_of_the_empty_chain() {
    let mut chain = weighted_select::new::<u32, ()>();

    assert_eq!(chain.poll_chain(0), (0, Outcome::Completed));
    assert_eq!(chain.poll_chain(0), (0, Outcome::Completed));
}
