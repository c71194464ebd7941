use ingest::series::{Series, WindowMovingAverage, HISTORY, SUBSEC};

#[test]
fn capacity_is_one_minute_and_one_sample() {
    assert_eq!(HISTORY, 3601);
    assert_eq!(SUBSEC, 60);
    assert_eq!(Series::<u64>::capacity(), 3601);
}

#[test]
fn default_series_is_full_of_defaults() {
    let s: Series<u64> = Series::default();
    let all = s.iter();
    assert_eq!(all.len(), HISTORY);
    assert!(all.iter().all(|&v| v == 0));
    assert_eq!(s.latest(), 0);
}

#[test]
fn push_makes_the_sample_the_latest_and_drops_the_oldest() {
    let mut s: Series<u64> = Series::default();
    s.push(7);
    assert_eq!(s.latest(), 7);
    let all = s.iter();
    assert_eq!(all.len(), HISTORY);
    assert_eq!(all[HISTORY - 1], 7);
    assert_eq!(all[HISTORY - 2], 0);
    s.push(9);
    let all = s.iter();
    assert_eq!(all[HISTORY - 1], 9);
    assert_eq!(all[HISTORY - 2], 7);
    assert_eq!(all[HISTORY - 3], 0);
}

#[test]
fn pushing_more_than_capacity_keeps_the_most_recent_oldest_first() {
    let mut s: Series<u64> = Series::default();
    let k: u64 = 1234;
    let n: u64 = HISTORY as u64 + k;
    for v in 1..=n {
        s.push(v);
    }
    let all = s.iter();
    assert_eq!(all.len(), HISTORY);
    let expected: Vec<u64> = ((k + 1)..=n).collect();
    assert_eq!(all, expected);
    assert_eq!(s.latest(), n);
}

#[test]
fn pushing_exactly_capacity_keeps_all_of_them() {
    let mut s: Series<u32> = Series::default();
    for v in 0..HISTORY as u32 {
        s.push(v);
    }
    let all = s.iter();
    let expected: Vec<u32> = (0..HISTORY as u32).collect();
    assert_eq!(all, expected);
}

#[test]
fn chunks_of_an_unrotated_series_come_from_the_newer_segment() {
    let mut s: Series<u64> = Series::default();
    for v in 0..HISTORY as u64 {
        s.push(v);
    }
    // After exactly HISTORY pushes the buffer is back where it started: nothing
    // is stored behind the latest sample.
    let (first, middle, last) = s.chunks(1000);
    assert!(first.is_empty());
    assert_eq!(middle.len(), 3);
    assert_eq!(middle[0][0], 0);
    assert_eq!(middle[0].len(), 1000);
    assert_eq!(middle[2][999], 2999);
    assert_eq!(last.len(), 601);
    assert_eq!(last[0], 3000);
    assert_eq!(last[600], 3600);
}

#[test]
fn chunks_do_not_span_the_wrap() {
    let mut s: Series<u64> = Series::default();
    for v in 0..(HISTORY as u64 + 10) {
        s.push(v);
    }
    // Chronologically the series holds 10..=3610; the 10 newest samples were
    // written at the start of the buffer, the other 3591 sit behind them.
    let (first, middle, last) = s.chunks(4);
    // older segment: 3591 samples, 3591 % 4 == 3 left over at its start
    assert_eq!(first, &[10, 11, 12][..]);
    // 897 chunks of the older segment, 2 of the newer
    assert_eq!(middle.len(), 897 + 2);
    assert_eq!(middle[0], &[13, 14, 15, 16][..]);
    assert_eq!(middle[896], &[3597, 3598, 3599, 3600][..]);
    assert_eq!(middle[897], &[3601, 3602, 3603, 3604][..]);
    assert_eq!(middle[898], &[3605, 3606, 3607, 3608][..]);
    assert_eq!(last, &[3609, 3610][..]);
    // together they are the whole history
    let mut joined: Vec<u64> = first.to_vec();
    for c in &middle {
        joined.extend_from_slice(c);
    }
    joined.extend_from_slice(last);
    assert_eq!(joined, s.iter());
}

#[test]
fn chunk_size_one_gives_every_sample_its_chunk() {
    let mut s: Series<u8> = Series::default();
    s.push(5);
    let (first, middle, last) = s.chunks(1);
    assert!(first.is_empty());
    assert!(last.is_empty());
    assert_eq!(middle.len(), HISTORY);
    assert_eq!(middle[HISTORY - 1], &[5][..]);
}

#[test]
fn a_window_keeps_the_last_samples_by_their_places() {
    let mut w: WindowMovingAverage<u32, 3> = WindowMovingAverage::default();
    assert_eq!(w.samples(), &vec![0, 0, 0]);
    w.add(1);
    w.add(2);
    assert_eq!(w.samples(), &vec![1, 2, 0]);
    w.add(3);
    w.add(4);
    // the fourth sample took the place of the first
    assert_eq!(w.samples(), &vec![4, 2, 3]);
    let sum: u32 = w.samples().iter().sum();
    assert_eq!(sum / 3, 3);
}

#[test]
fn a_window_of_one_sample_holds_the_latest() {
    let mut w: WindowMovingAverage<u8, 1> = WindowMovingAverage::default();
    w.add(7);
    w.add(9);
    assert_eq!(w.samples(), &vec![9]);
    let empty: WindowMovingAverage<u8, 0> = WindowMovingAverage::default();
    assert!(empty.samples().is_empty());
}

/// A ring buffer over a plain array, with its chunks taken by the slice methods of
/// the standard library.
struct Ring {
    inner: Vec<u64>,
    last: usize,
}

impl Ring {
    fn new() -> Self {
        Ring { inner: vec![0; HISTORY], last: HISTORY - 1 }
    }
    fn push(&mut self, item: u64) {
        self.last += 1;
        if self.last == HISTORY {
            self.last = 0;
        }
        self.inner[self.last] = item;
    }
    fn iter(&self) -> Vec<u64> {
        let mut all = self.inner[(self.last + 1)..].to_vec();
        all.extend_from_slice(&self.inner[..(self.last + 1)]);
        all
    }
    fn chunks(&self, chunk_size: usize) -> (Vec<u64>, Vec<Vec<u64>>, Vec<u64>) {
        let tail = self.inner[(self.last + 1)..].rchunks_exact(chunk_size);
        let head = self.inner[..(self.last + 1)].chunks_exact(chunk_size);
        let first = tail.remainder().to_vec();
        let last = head.remainder().to_vec();
        let middle = tail.rev().chain(head).map(|c| c.to_vec()).collect();
        (first, middle, last)
    }
}

#[test]
fn series_agrees_with_a_ring_over_a_plain_array() {
    let mut series: Series<u64> = Series::default();
    let mut ring = Ring::new();
    let mut next: u64 = 1;
    for pushes in [0usize, 1, 2, 17, 1000, 2583, 1, 3600, 3601, 5] {
        for _ in 0..pushes {
            series.push(next);
            ring.push(next);
            next += 1;
        }
        assert_eq!(series.iter(), ring.iter());
        assert_eq!(series.latest(), ring.inner[ring.last]);
        for chunk_size in [1usize, 2, 3, 7, 60, 3600, 3601, 5000] {
            let (first, middle, last) = series.chunks(chunk_size);
            let middle: Vec<Vec<u64>> = middle.iter().map(|c| c.to_vec()).collect();
            assert_eq!((first.to_vec(), middle, last.to_vec()), ring.chunks(chunk_size));
        }
    }
}
