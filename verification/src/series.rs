//! Fixed-capacity history of samples.

use vstd::prelude::*;
use vstd::slice::slice_subrange;

verus! {

/// Samples taken per second.
pub const SUBSEC: u64 = 60;

/// Microseconds between two samples.
pub const TICK_DELAY_MICROS: u64 = 16_666;

/// Number of samples a [`Series`] holds: one minute of history plus the current sample.
pub const HISTORY: usize = 3601;

/// A ring buffer that always holds exactly [`HISTORY`] samples.
///
/// Its view is the chronological sequence of the samples, oldest first. The
/// buffer is stored rotated: the `older_len()` oldest samples sit behind the
/// latest one in memory, which is what [`Series::chunks`] exposes.
#[derive(Debug)]
pub struct Series<T: Copy + Default> {
    inner: Vec<T>,
    last: usize,
}

impl<T: Copy + Default> View for Series<T> {
    type V = Seq<T>;

    closed spec fn view(&self) -> Seq<T> {
        self.inner@.subrange(self.last + 1, self.inner@.len() as int) + self.inner@.subrange(
            0,
            self.last + 1,
        )
    }
}

/// The history `s` after one more sample: the oldest sample leaves, `item` becomes the latest.
pub open spec fn pushed<T>(s: Seq<T>, item: T) -> Seq<T> {
    s.drop_first().push(item)
}

/// The history `s` after every sample of `items` was pushed, first to last.
pub open spec fn pushed_all<T>(s: Seq<T>, items: Seq<T>) -> Seq<T>
    decreases items.len(),
{
    if items.len() == 0 {
        s
    } else {
        pushed(pushed_all(s, items.drop_last()), items.last())
    }
}

/// Length of the older segment after one push.
pub open spec fn older_len_after_push(older_len: nat) -> nat {
    if older_len == 0 {
        (HISTORY - 1) as nat
    } else {
        (older_len - 1) as nat
    }
}

impl<T: Copy + Default> Series<T> {
    #[verifier::type_invariant]
    spec fn inv(self) -> bool {
        self.inner@.len() == HISTORY && self.last < HISTORY
    }

    /// How many of the oldest samples are stored behind the latest one.
    pub closed spec fn older_len(&self) -> nat {
        (self.inner@.len() - 1 - self.last) as nat
    }

    /// The samples stored behind the latest one: the oldest `older_len()` samples.
    pub open spec fn older(&self) -> Seq<T> {
        self@.subrange(0, self.older_len() as int)
    }

    /// The samples stored up to the latest one: the newest `HISTORY - older_len()` samples.
    pub open spec fn newer(&self) -> Seq<T> {
        self@.subrange(self.older_len() as int, HISTORY as int)
    }

    /// The `k`-th full chunk that [`Series::chunks`] yields for `chunk_size`: the chunks of
    /// the older segment come first and are aligned to its end, those of the newer segment
    /// follow and are aligned to its start.
    pub open spec fn chunk_at(&self, chunk_size: nat, k: int) -> Seq<T> {
        let skip = self.older().len() % chunk_size;
        let n_older = self.older().len() / chunk_size;
        if k < n_older {
            self.older().subrange(skip + k * chunk_size, skip + (k + 1) * chunk_size)
        } else {
            self.newer().subrange((k - n_older) * chunk_size, (k - n_older + 1) * chunk_size)
        }
    }

    /// A history filled with one sample value.
    fn filled(item: T) -> (r: Self)
        ensures
            r@ == Seq::new(HISTORY as nat, |i: int| item),
            r.older_len() == 0,
    {
        let mut inner: Vec<T> = Vec::new();
        let mut i: usize = 0;
        while i < HISTORY
            invariant
                i <= HISTORY,
                inner@.len() == i,
                forall|j: int| 0 <= j < i ==> inner@[j] == item,
            decreases HISTORY - i,
        {
            inner.push(item);
            i += 1;
        }
        let r = Series { inner, last: HISTORY - 1 };
        assert(r@ =~= Seq::new(HISTORY as nat, |i: int| item));
        r
    }

    /// Appends `item` as the latest sample and drops the oldest one.
    pub fn push(&mut self, item: T)
        ensures
            old(self)@.len() == HISTORY,
            old(self).older_len() < HISTORY,
            final(self)@ == pushed(old(self)@, item),
            final(self).older_len() == older_len_after_push(old(self).older_len()),
    {
        proof {
            use_type_invariant(&*self);
        }
        let mut next: usize = self.last + 1;
        if next == HISTORY {
            next = 0;
        }
        let ghost before = self@;
        self.last = next;
        self.inner[next] = item;
        assert(self@ =~= pushed(before, item));
    }

    /// Number of samples every series holds.
    pub fn capacity() -> (r: usize)
        ensures
            r == HISTORY,
    {
        HISTORY
    }

    /// The most recent sample.
    pub fn latest(&self) -> (r: T)
        ensures
            self@.len() == HISTORY,
            r == self@.last(),
    {
        proof {
            use_type_invariant(self);
        }
        self.inner[self.last]
    }
}

impl<T: Copy + Default> Series<T> {
    /// The samples in chronological order, oldest first.
    pub fn iter(&self) -> (r: Vec<T>)
        ensures
            r@ == self@,
            r@.len() == HISTORY,
    {
        proof {
            use_type_invariant(self);
        }
        let mut r: Vec<T> = Vec::new();
        let mut i: usize = self.last + 1;
        while i < HISTORY
            invariant
                self.inner@.len() == HISTORY,
                self.last + 1 <= i <= HISTORY,
                r@ == self.inner@.subrange(self.last + 1, i as int),
            decreases HISTORY - i,
        {
            r.push(self.inner[i]);
            i += 1;
            assert(r@ =~= self.inner@.subrange(self.last + 1, i as int));
        }
        let mut j: usize = 0;
        while j <= self.last
            invariant
                self.inner@.len() == HISTORY,
                self.last < HISTORY,
                j <= self.last + 1,
                r@ == self.inner@.subrange(self.last + 1, HISTORY as int) + self.inner@.subrange(
                    0,
                    j as int,
                ),
            decreases self.last + 1 - j,
        {
            r.push(self.inner[j]);
            j += 1;
            assert(r@ =~= self.inner@.subrange(self.last + 1, HISTORY as int)
                + self.inner@.subrange(0, j as int));
        }
        r
    }

    /// Splits the history into chunks of `chunk_size` samples for downsampling.
    ///
    /// Chunks never span the point where the buffer wraps. Returns the leftover at the
    /// start of the older segment, the full chunks in chronological order, and the
    /// leftover at the end of the newer segment.
    pub fn chunks(&self, chunk_size: usize) -> (r: (&[T], Vec<&[T]>, &[T]))
        requires
            chunk_size > 0,
        ensures
            self@.len() == HISTORY,
            self.older_len() < HISTORY,
            r.0@ == self.older().subrange(0, (self.older().len() % (chunk_size as nat)) as int),
            r.1@.len() == self.older().len() / (chunk_size as nat) + self.newer().len() / (
            chunk_size as nat),
            forall|k: int|
                0 <= k < r.1@.len() ==> (#[trigger] r.1@[k])@ == self.chunk_at(chunk_size as nat, k),
            r.2@ == self.newer().subrange(
                self.newer().len() - self.newer().len() % (chunk_size as nat),
                self.newer().len() as int,
            ),
    {
        proof {
            use_type_invariant(self);
        }
        let all: &[T] = self.inner.as_slice();
        let split: usize = self.last + 1;
        let older_len: usize = HISTORY - split;
        let skip: usize = older_len % chunk_size;
        let n_older: usize = older_len / chunk_size;
        let n_newer: usize = split / chunk_size;
        let ghost cs = chunk_size as int;
        proof {
            assert(self.older() =~= self.inner@.subrange(split as int, HISTORY as int));
            assert(self.newer() =~= self.inner@.subrange(0, split as int));
            vstd::arithmetic::div_mod::lemma_fundamental_div_mod(older_len as int, cs);
            vstd::arithmetic::div_mod::lemma_fundamental_div_mod(split as int, cs);
        }
        let first: &[T] = slice_subrange(all, split, split + skip);
        assert(first@ =~= self.older().subrange(0, skip as int));
        let mut middle: Vec<&[T]> = Vec::new();
        let mut k: usize = 0;
        while k < n_older
            invariant
                all@ == self.inner@,
                self.inner@.len() == HISTORY,
                self.older() == self.inner@.subrange(split as int, HISTORY as int),
                self.older().len() == older_len,
                split + older_len == HISTORY,
                cs == chunk_size > 0,
                skip == older_len % chunk_size,
                n_older == older_len / chunk_size,
                older_len == cs * n_older + skip,
                k <= n_older,
                middle@.len() == k,
                forall|m: int|
                    0 <= m < k ==> (#[trigger] middle@[m])@ == self.chunk_at(chunk_size as nat, m),
            decreases n_older - k,
        {
            proof {
                assert(cs * (k + 1) <= cs * n_older) by (nonlinear_arith)
                    requires
                        k + 1 <= n_older,
                        cs > 0,
                ;
                assert(cs * (k + 1) == cs * k + cs) by (nonlinear_arith);
            }
            let start: usize = split + skip + k * chunk_size;
            let chunk: &[T] = slice_subrange(all, start, start + chunk_size);
            assert(chunk@ =~= self.chunk_at(chunk_size as nat, k as int));
            middle.push(chunk);
            k += 1;
        }
        let mut j: usize = 0;
        while j < n_newer
            invariant
                all@ == self.inner@,
                self.inner@.len() == HISTORY,
                self.newer() == self.inner@.subrange(0, split as int),
                self.older().len() == older_len,
                split <= HISTORY,
                cs == chunk_size > 0,
                n_older == older_len / chunk_size,
                n_newer == split / chunk_size,
                split == cs * n_newer + split % chunk_size,
                j <= n_newer,
                middle@.len() == n_older + j,
                forall|m: int|
                    0 <= m < n_older + j ==> (#[trigger] middle@[m])@ == self.chunk_at(
                        chunk_size as nat,
                        m,
                    ),
            decreases n_newer - j,
        {
            proof {
                assert(cs * (j + 1) <= cs * n_newer) by (nonlinear_arith)
                    requires
                        j + 1 <= n_newer,
                        cs > 0,
                ;
                assert(cs * (j + 1) == cs * j + cs) by (nonlinear_arith);
            }
            let start: usize = j * chunk_size;
            let chunk: &[T] = slice_subrange(all, start, start + chunk_size);
            proof {
                let m = n_older + j;
                assert(!(m < self.older().len() / (chunk_size as nat)));
                assert((m - n_older) * cs == start) by (nonlinear_arith)
                    requires
                        m - n_older == j,
                        start == j * cs,
                ;
                assert((m - n_older + 1) * cs == start + cs) by (nonlinear_arith)
                    requires
                        m - n_older == j,
                        start == j * cs,
                ;
                assert(chunk@ =~= self.newer().subrange(start as int, start + cs));
            }
            assert(chunk@ =~= self.chunk_at(chunk_size as nat, n_older + j));
            middle.push(chunk);
            j += 1;
        }
        let last: &[T] = slice_subrange(all, split - split % chunk_size, split);
        assert(last@ =~= self.newer().subrange(
            self.newer().len() - self.newer().len() % (chunk_size as nat),
            self.newer().len() as int,
        ));
        (first, middle, last)
    }
}

impl<T: Copy + Default> Default for Series<T> {
    /// A history in which every sample is the default value of `T`.
    fn default() -> (r: Self)
        ensures
            r@.len() == HISTORY,
            call_ensures(T::default, (), r@[0]),
            forall|i: int| 0 <= i < HISTORY ==> #[trigger] r@[i] == r@[0],
            r.older_len() == 0,
    {
        Series::filled(T::default())
    }
}

/// Whatever the history held before, once at least [`HISTORY`] samples were pushed it
/// holds exactly the last [`HISTORY`] of them, oldest first.
pub proof fn lemma_pushed_all_keeps_latest<T>(s: Seq<T>, items: Seq<T>)
    requires
        s.len() == HISTORY,
        items.len() >= HISTORY,
    ensures
        pushed_all(s, items) == items.subrange(items.len() - HISTORY, items.len() as int),
{
    lemma_pushed_all_window(s, items);
    assert((s + items).subrange(items.len() as int, HISTORY + items.len()) =~= items.subrange(
        items.len() - HISTORY,
        items.len() as int,
    ));
}

/// Pushing any number of samples slides a window of [`HISTORY`] samples over the old
/// history followed by the new samples.
pub proof fn lemma_pushed_all_window<T>(s: Seq<T>, items: Seq<T>)
    requires
        s.len() == HISTORY,
    ensures
        pushed_all(s, items) == (s + items).subrange(items.len() as int, HISTORY + items.len()),
    decreases items.len(),
{
    if items.len() == 0 {
        assert((s + items).subrange(0, HISTORY as int) =~= s);
    } else {
        let init = items.drop_last();
        lemma_pushed_all_window(s, init);
        assert(pushed((s + init).subrange(init.len() as int, HISTORY + init.len()), items.last())
            =~= (s + items).subrange(items.len() as int, HISTORY + items.len()));
    }
}

/// The window of a moving average: the last `WINDOW_SIZE` samples.
///
/// The samples are kept in the order of their places in the window, not of their
/// age: a new sample takes the place of the oldest one.
#[derive(Debug)]
pub struct WindowMovingAverage<T: Copy + Default, const WINDOW_SIZE: usize> {
    i: usize,
    samples: Vec<T>,
}

impl<T: Copy + Default, const WINDOW_SIZE: usize> WindowMovingAverage<T, WINDOW_SIZE> {
    #[verifier::type_invariant]
    spec fn inv(self) -> bool {
        self.samples@.len() == WINDOW_SIZE && (self.i < WINDOW_SIZE || WINDOW_SIZE == 0)
    }

    /// The samples of the window by their places.
    pub closed spec fn spec_samples(&self) -> Seq<T> {
        self.samples@
    }

    /// The place that the next sample takes.
    pub closed spec fn next_place(&self) -> int {
        self.i as int
    }

    /// Puts `sample` in the place of the oldest sample of the window.
    pub fn add(&mut self, sample: T)
        requires
            WINDOW_SIZE > 0,
        ensures
            0 <= old(self).next_place() < WINDOW_SIZE,
            final(self).spec_samples() == old(self).spec_samples().update(
                old(self).next_place(),
                sample,
            ),
            final(self).next_place() == (old(self).next_place() + 1) % (WINDOW_SIZE as int),
    {
        proof {
            use_type_invariant(&*self);
        }
        let place: usize = self.i;
        let next: usize = (place + 1) % WINDOW_SIZE;
        self.i = next;
        self.samples[place] = sample;
    }

    /// The samples of the window by their places.
    pub fn samples(&self) -> (r: &Vec<T>)
        ensures
            r@ == self.spec_samples(),
            r@.len() == WINDOW_SIZE,
    {
        proof {
            use_type_invariant(self);
        }
        &self.samples
    }
}

impl<T: Copy + Default, const WINDOW_SIZE: usize> Default for WindowMovingAverage<T, WINDOW_SIZE> {
    /// A window in which every sample is the default value of `T`.
    fn default() -> (r: Self)
        ensures
            r.spec_samples().len() == WINDOW_SIZE,
            r.next_place() == 0,
            forall|k: int|
                0 <= k < WINDOW_SIZE ==> call_ensures(T::default, (), #[trigger] r.spec_samples()[k]),
    {
        let mut samples: Vec<T> = Vec::new();
        let mut k: usize = 0;
        while k < WINDOW_SIZE
            invariant
                k <= WINDOW_SIZE,
                samples@.len() == k,
                forall|j: int| 0 <= j < k ==> call_ensures(T::default, (), #[trigger] samples@[j]),
            decreases WINDOW_SIZE - k,
        {
            samples.push(T::default());
            k += 1;
        }
        WindowMovingAverage { i: 0, samples }
    }
}

} // verus!
