//! The multi-slot cache and its publication protocol.

use vstd::prelude::*;

use crate::pad::pad_bool;
use crate::pad::pad_usize;
use crate::pad::padded_bool;
use crate::pad::padded_bool_read;
use crate::pad::padded_usize;
use crate::pad::padded_usize_read;

verus! {

/// The one way construction can fail: a slot count that is not a power of
/// two, or is below two.
#[derive(Clone, Copy, Debug, PartialEq, Eq, Structural)]
pub enum CacheError {
    InvalidSlotCount,
}

/// A slot count is usable when it is at least two (so a slot other than the
/// published one always exists) and a power of two (so wrapping an index is
/// a mask with `n - 1`).
pub open spec fn valid_slot_count(n: usize) -> bool {
    n >= 2 && n & ((n - 1) as usize) == 0
}

/// Masking with `n - 1` leaves an index that is already below `n` unchanged,
/// because a power of two minus one has all low bits set.
proof fn lemma_mask_keeps_small(a: usize, n: usize)
    by (bit_vector)
    requires
        n >= 2,
        n & ((n - 1) as usize) == 0,
        a < n,
    ensures
        a & ((n - 1) as usize) == a,
{
}

/// Stepping an index forward wraps at `n`: masking with `n - 1` either keeps
/// `a + 1` (still below `n`) or brings `n` back to zero.
proof fn lemma_wrap_step(a: usize, n: usize)
    by (bit_vector)
    requires
        n >= 2,
        n & ((n - 1) as usize) == 0,
        a < n,
    ensures
        a + 1 < n ==> ((a + 1) as usize) & ((n - 1) as usize) == a + 1,
        a + 1 == n ==> ((a + 1) as usize) & ((n - 1) as usize) == 0,
{
}

/// The slot `k` steps past `from` in cyclic order, for `0 <= k <= n` and
/// `from < n`: the sum wraps around the end of the slot array at most once.
pub open spec fn fwd(from: int, k: int, n: int) -> int {
    if from + k < n {
        from + k
    } else {
        from + k - n
    }
}

/// The number of single forward steps that lead from `from` to `to`, both
/// below `n`; a full lap, `n`, when the two are equal.
pub open spec fn dist(from: int, to: int, n: int) -> int {
    if to > from {
        to - from
    } else {
        to - from + n
    }
}

/// The number of full cells among the first `k` slots.
pub open spec fn count_full<T>(cells: Seq<Option<T>>, k: int) -> int
    decreases k,
{
    if k <= 0 {
        0
    } else {
        count_full(cells, k - 1) + if cells[k - 1] is Some {
            1int
        } else {
            0int
        }
    }
}

/// Cells with a prefix of `m` full slots and the rest empty hold `min(k, m)`
/// full cells among their first `k` slots.
proof fn lemma_count_full_prefix<T>(cells: Seq<Option<T>>, m: int, k: int)
    requires
        0 <= m <= cells.len(),
        0 <= k <= cells.len(),
        forall|s: int| 0 <= s < m ==> #[trigger] cells[s] is Some,
        forall|s: int| m <= s < cells.len() ==> #[trigger] cells[s] is None,
    ensures
        count_full(cells, k) == if k <= m {
            k
        } else {
            m
        },
    decreases k,
{
    if k > 0 {
        lemma_count_full_prefix(cells, m, k - 1);
    }
}

struct Slot<T> {
    count: crossbeam::utils::CachePadded<usize>,
    data: Option<T>,
}

/// A single-writer multi-slot cache holding successive versions of one
/// logical value.
pub struct Cache<T: Clone> {
    index: crossbeam::utils::CachePadded<usize>,
    writing: crossbeam::utils::CachePadded<bool>,
    items: Vec<Slot<T>>,
    history: Ghost<Seq<T>>,
}

impl<T: Clone> Cache<T> {
    /// The number of slots.
    pub closed spec fn n(self) -> usize {
        self.items.len()
    }

    /// The slot currently named by the published index.
    pub closed spec fn current(self) -> usize {
        padded_usize(self.index)
    }

    /// The contents of every slot's cell: `None` marks an empty cell.
    pub closed spec fn cells(self) -> Seq<Option<T>> {
        self.items@.map_values(|it: Slot<T>| it.data)
    }

    /// The contents of one slot's cell.
    pub open spec fn cell(self, s: int) -> Option<T> {
        self.cells()[s]
    }

    /// Every slot's reader occupancy count.
    pub closed spec fn counts(self) -> Seq<usize> {
        self.items@.map_values(|it: Slot<T>| padded_usize(it.count))
    }

    /// One slot's reader occupancy count.
    pub open spec fn readers(self, s: int) -> usize {
        self.counts()[s]
    }

    /// The writer exclusion flag.
    pub closed spec fn is_writing(self) -> bool {
        padded_bool(self.writing)
    }

    /// Every value ever installed, oldest first; the initial value sits at
    /// position zero and each completed write appends the value it installed.
    pub closed spec fn history(self) -> Seq<T> {
        self.history@
    }

    /// The currently published value: the contents of the slot named by the
    /// index.
    pub open spec fn published(self) -> T {
        self.cell(self.current() as int)->0
    }

    /// The cache's invariant: the slot count is usable, the published index
    /// names a slot whose cell is full, a slot with readers in it is full,
    /// and every full cell holds a value that was installed at some point.
    pub open spec fn wf(self) -> bool {
        &&& valid_slot_count(self.n())
        &&& self.current() < self.n()
        &&& self.cell(self.current() as int) is Some
        &&& forall|s: int|
            0 <= s < self.n() && self.readers(s) > 0 ==> #[trigger] self.cell(s) is Some
        &&& forall|s: int|
            0 <= s < self.n() && #[trigger] self.cell(s) is Some ==> self.history().contains(
                self.cell(s)->0,
            )
    }

    /// Builds a cache of `slots` slots with `data` as the initial published
    /// value, in slot zero; every other slot starts empty. Fails exactly when
    /// the slot count is not a power of two at least two.
    pub fn new(data: T, slots: usize) -> (r: Result<Cache<T>, CacheError>)
        ensures
            r is Ok <==> valid_slot_count(slots),
            r is Ok ==> {
                &&& r->Ok_0.wf()
                &&& r->Ok_0.n() == slots
                &&& r->Ok_0.current() == 0
                &&& r->Ok_0.cells() == Seq::new(
                    slots as nat,
                    |s: int| if s == 0 { Some(data) } else { None::<T> },
                )
                &&& r->Ok_0.counts() == Seq::new(slots as nat, |s: int| 0usize)
                &&& !r->Ok_0.is_writing()
                &&& r->Ok_0.history() == seq![data]
                &&& r->Ok_0.filled_to(1)
            },
            r is Err ==> r == Result::<Cache<T>, CacheError>::Err(CacheError::InvalidSlotCount),
    {
        if slots < 2 || (slots & (slots - 1)) != 0 {
            return Err(CacheError::InvalidSlotCount);
        }
        let ghost initial = data;
        let ghost initial_history: Seq<T> = seq![data];
        let mut items: Vec<Slot<T>> = Vec::new();
        items.push(Slot { count: pad_usize(0), data: Some(data) });
        let mut k: usize = 1;
        while k < slots
            invariant
                1 <= k <= slots,
                items@.len() == k,
                forall|s: int| 0 <= s < k ==> padded_usize(#[trigger] items@[s].count) == 0,
                items@[0].data == Some(initial),
                forall|s: int| 1 <= s < k ==> #[trigger] items@[s].data is None,
            decreases slots - k,
        {
            items.push(Slot { count: pad_usize(0), data: None });
            k = k + 1;
        }
        let c = Cache {
            index: pad_usize(0),
            writing: pad_bool(false),
            items,
            history: Ghost(initial_history),
        };
        proof {
            assert(c.cells() =~= Seq::new(
                slots as nat,
                |s: int| if s == 0 { Some(initial) } else { None::<T> },
            ));
            assert(c.counts() =~= Seq::new(slots as nat, |s: int| 0usize));
            assert forall|s: int| 0 <= s < c.n() && #[trigger] c.cell(s) is Some implies c
                .history().contains(c.cell(s)->0) by {
                assert(s == 0);
                assert(c.history()[0] == initial);
            };
        }
        Ok(c)
    }

    /// Loads the published index and masks it with `n - 1`, as every reader
    /// does on entry.
    fn current_slot(&self) -> (i: usize)
        requires
            self.wf(),
        ensures
            i == self.current(),
    {
        let i = padded_usize_read(&self.index);
        let mask = self.items.len() - 1;
        proof {
            lemma_mask_keeps_small(i, self.n());
        }
        i & mask
    }

    /// Reader entry: steps into the slot named by the published index by
    /// raising that slot's occupancy count, and returns the slot. Until the
    /// matching [`Self::end_read`], no writer will install into that slot.
    pub fn begin_read(&mut self) -> (slot: usize)
        requires
            old(self).wf(),
            old(self).readers(old(self).current() as int) < usize::MAX,
        ensures
            final(self).wf(),
            slot == old(self).current(),
            slot < old(self).n(),
            final(self).counts() == old(self).counts().update(
                slot as int,
                (old(self).readers(slot as int) + 1) as usize,
            ),
            final(self).cells() == old(self).cells(),
            final(self).current() == old(self).current(),
            final(self).n() == old(self).n(),
            final(self).is_writing() == old(self).is_writing(),
            final(self).history() == old(self).history(),
    {
        let slot = self.current_slot();
        let c = padded_usize_read(&self.items[slot].count);
        self.items[slot].count = pad_usize(c + 1);
        proof {
            assert(self.cells() =~= old(self).cells());
            assert(self.counts() =~= old(self).counts().update(
                slot as int,
                (old(self).readers(slot as int) + 1) as usize,
            ));
            assert forall|s: int| 0 <= s < self.n() && self.readers(s) > 0 implies #[trigger] self
                .cell(s) is Some by {
                if s != slot {
                    assert(old(self).readers(s) > 0);
                }
                assert(old(self).cell(s) is Some);
            };
            assert forall|s: int| 0 <= s < self.n() && #[trigger] self.cell(s) is Some implies self
                .history().contains(self.cell(s)->0) by {
                assert(old(self).cell(s) is Some);
            };
        }
        slot
    }

    /// Reader body: clones the value out of an occupied slot. The occupancy
    /// count guarantees the cell is full, so this never fails.
    pub fn read_slot(&self, slot: usize) -> (r: T)
        requires
            self.wf(),
            slot < self.n(),
            self.readers(slot as int) > 0,
        ensures
            cloned(self.cell(slot as int)->0, r),
            self.history().contains(self.cell(slot as int)->0),
    {
        proof {
            assert(self.cell(slot as int) is Some);
        }
        match &self.items[slot].data {
            Some(v) => v.clone(),
            None => unreached(),
        }
    }

    /// Reader exit: steps out of a slot by lowering its occupancy count.
    pub fn end_read(&mut self, slot: usize)
        requires
            old(self).wf(),
            slot < old(self).n(),
            old(self).readers(slot as int) > 0,
        ensures
            final(self).wf(),
            final(self).counts() == old(self).counts().update(
                slot as int,
                (old(self).readers(slot as int) - 1) as usize,
            ),
            final(self).cells() == old(self).cells(),
            final(self).current() == old(self).current(),
            final(self).n() == old(self).n(),
            final(self).is_writing() == old(self).is_writing(),
            final(self).history() == old(self).history(),
    {
        let c = padded_usize_read(&self.items[slot].count);
        self.items[slot].count = pad_usize(c - 1);
        proof {
            assert(self.cells() =~= old(self).cells());
            assert(self.counts() =~= old(self).counts().update(
                slot as int,
                (old(self).readers(slot as int) - 1) as usize,
            ));
            assert forall|s: int| 0 <= s < self.n() && self.readers(s) > 0 implies #[trigger] self
                .cell(s) is Some by {
                if s != slot {
                    assert(old(self).readers(s) > 0);
                }
                assert(old(self).cell(s) is Some);
            };
            assert forall|s: int| 0 <= s < self.n() && #[trigger] self.cell(s) is Some implies self
                .history().contains(self.cell(s)->0) by {
                assert(old(self).cell(s) is Some);
            };
        }
    }

    /// The read path: returns a clone of the currently published value — a
    /// value that some write installed (or the initial value). Enters the
    /// published slot, clones, and leaves; the cache is unchanged.
    pub fn get_data(&mut self) -> (r: T)
        requires
            old(self).wf(),
            old(self).readers(old(self).current() as int) < usize::MAX,
        ensures
            final(self).wf(),
            cloned(old(self).published(), r),
            old(self).history().contains(old(self).published()),
            final(self).counts() == old(self).counts(),
            final(self).cells() == old(self).cells(),
            final(self).current() == old(self).current(),
            final(self).n() == old(self).n(),
            final(self).is_writing() == old(self).is_writing(),
            final(self).history() == old(self).history(),
    {
        let slot = self.begin_read();
        let r = self.read_slot(slot);
        self.end_read(slot);
        proof {
            assert(self.counts() =~= old(self).counts());
        }
        r
    }

    /// `t` is the slot the writer's search settles on: not the published
    /// slot, free of readers, and the first such slot in cyclic order past
    /// the published one — every slot strictly between them is occupied.
    pub open spec fn is_target(self, t: int) -> bool {
        let cur = self.current() as int;
        let n = self.n() as int;
        &&& 0 <= t < n
        &&& t != cur
        &&& self.readers(t) == 0
        &&& forall|o: int|
            1 <= o < dist(cur, t, n) ==> self.readers(#[trigger] fwd(cur, o, n)) != 0
    }

    /// The shape a cache keeps while its slots fill up: the first `m` cells
    /// are full, the rest are empty, and — until every slot is full — the
    /// published index names the most recently filled slot. A fresh cache
    /// satisfies `filled_to(1)`, and each write raises `m` by one until it
    /// reaches the slot count.
    pub open spec fn filled_to(self, m: int) -> bool {
        &&& 1 <= m <= self.n()
        &&& forall|s: int| 0 <= s < m ==> #[trigger] self.cell(s) is Some
        &&& forall|s: int| m <= s < self.n() ==> #[trigger] self.cell(s) is None
        &&& (m == self.n() || self.current() == m - 1)
    }

    /// Writer entry: takes the exclusion flag, reporting whether it was free.
    /// In the concurrent protocol a writer repeats this swap until it wins;
    /// exactly one writer at a time sees `true`.
    pub fn try_begin_write(&mut self) -> (acquired: bool)
        requires
            old(self).wf(),
        ensures
            final(self).wf(),
            acquired == !old(self).is_writing(),
            final(self).is_writing(),
            final(self).counts() == old(self).counts(),
            final(self).cells() == old(self).cells(),
            final(self).current() == old(self).current(),
            final(self).n() == old(self).n(),
            final(self).history() == old(self).history(),
    {
        let was = padded_bool_read(&self.writing);
        self.writing = pad_bool(true);
        proof {
            assert forall|s: int| 0 <= s < self.n() && self.readers(s) > 0 implies #[trigger] self
                .cell(s) is Some by {
                assert(old(self).cell(s) is Some);
            };
            assert forall|s: int| 0 <= s < self.n() && #[trigger] self.cell(s) is Some implies self
                .history().contains(self.cell(s)->0) by {
                assert(old(self).cell(s) is Some);
            };
        }
        !was
    }

    /// The rest of the write path, run while holding the exclusion flag:
    /// searches cyclically from the published slot for a free slot other
    /// than the published one, installs `data` there (dropping the previous
    /// occupant, if any), publishes the index to it, and releases the flag.
    ///
    /// The search needs some other slot to be free of readers; in the
    /// concurrent protocol it retries until one is, since readers leave
    /// their slot after a single clone.
    pub fn finish_write(&mut self, data: T)
        requires
            old(self).wf(),
            old(self).is_writing(),
            exists|j: int|
                0 <= j < old(self).n() && j != old(self).current() && old(self).readers(j) == 0,
        ensures
            final(self).wf(),
            old(self).is_target(final(self).current() as int),
            final(self).cells() == old(self).cells().update(
                final(self).current() as int,
                Some(data),
            ),
            final(self).counts() == old(self).counts(),
            final(self).n() == old(self).n(),
            !final(self).is_writing(),
            final(self).history() == old(self).history().push(data),
            forall|m: int|
                #[trigger] old(self).filled_to(m) ==> final(self).filled_to(
                    if m < old(self).n() {
                        m + 1
                    } else {
                        m
                    },
                ),
    {
        let current = padded_usize_read(&self.index);
        let n = self.items.len();
        let mask = n - 1;
        let mut next = current;
        let ghost cur: int = current as int;
        let ghost nn: int = n as int;
        let ghost cts = self.counts();
        let ghost j0: int = choose|j: int|
            0 <= j < old(self).n() && j != old(self).current() && old(self).readers(j) == 0;
        let ghost mut steps: int = 0;
        loop
            invariant_except_break
                0 <= steps < dist(cur, j0, nn),
                dist(cur, j0, nn) <= nn - 1,
                next as int == fwd(cur, steps, nn),
                forall|o: int| 1 <= o <= steps ==> cts[#[trigger] fwd(cur, o, nn)] != 0,
            invariant
                self == old(self),
                self.wf(),
                cur == self.current() as int,
                nn == self.n() as int,
                cts == self.counts(),
                n == self.n(),
                current == self.current(),
                mask == n - 1,
                0 <= cur < nn,
                2 <= nn,
                0 <= j0 < nn,
                j0 != cur,
                cts[j0] == 0,
            ensures
                self == old(self),
                next < n,
                next as int != cur,
                cts[next as int] == 0,
                forall|o: int|
                    1 <= o < dist(cur, next as int, nn) ==> cts[#[trigger] fwd(cur, o, nn)] != 0,
            decreases dist(cur, j0, nn) - steps,
        {
            let ghost prev = next;
            next = (next + 1) & mask;
            proof {
                lemma_wrap_step(prev, n);
                steps = steps + 1;
                assert(next as int == fwd(cur, steps, nn));
            }
            if next != current {
                let c = padded_usize_read(&self.items[next].count);
                if c == 0 {
                    proof {
                        assert(c == cts[next as int]);
                        assert(dist(cur, next as int, nn) == steps);
                    }
                    break ;
                }
                proof {
                    if steps == dist(cur, j0, nn) {
                        assert(fwd(cur, dist(cur, j0, nn), nn) == j0);
                        assert(false);
                    }
                }
            } else {
                proof {
                    assert(false);
                }
            }
        }
        let ghost target: int = next as int;
        self.items[next].data = Some(data);
        self.index = pad_usize(next);
        self.writing = pad_bool(false);
        self.history = Ghost(self.history@.push(data));
        proof {
            assert(self.cells() =~= old(self).cells().update(target, Some(data)));
            assert(self.counts() =~= old(self).counts());
            assert forall|s: int| 0 <= s < self.n() && self.readers(s) > 0 implies #[trigger] self
                .cell(s) is Some by {
                if s != target {
                    assert(old(self).cell(s) is Some);
                }
            };
            assert forall|s: int| 0 <= s < self.n() && #[trigger] self.cell(s) is Some implies self
                .history().contains(self.cell(s)->0) by {
                if s == target {
                    assert(self.history()[self.history().len() - 1] == data);
                } else {
                    assert(old(self).cell(s) is Some);
                    let i = choose|i: int|
                        0 <= i < old(self).history().len() && old(self).history()[i] == old(
                            self,
                        ).cell(s)->0;
                    assert(self.history()[i] == self.cell(s)->0);
                }
            };
            assert forall|m: int| #[trigger] old(self).filled_to(m) implies self.filled_to(
                if m < old(self).n() {
                    m + 1
                } else {
                    m
                },
            ) by {
                if m < old(self).n() {
                    assert(old(self).cell(m) is None);
                    assert(old(self).readers(m) == 0);
                    assert(fwd(cur, 1, nn) == m);
                    if target != m {
                        assert(dist(cur, target, nn) > 1);
                        assert(cts[fwd(cur, 1, nn)] != 0);
                        assert(false);
                    }
                    assert forall|s: int| 0 <= s < m + 1 implies #[trigger] self.cell(s) is Some by {
                        if s != target {
                            assert(old(self).cell(s) is Some);
                        }
                    };
                    assert forall|s: int| m + 1 <= s < self.n() implies #[trigger] self.cell(
                        s,
                    ) is None by {
                        assert(old(self).cell(s) is None);
                    };
                } else {
                    assert forall|s: int| 0 <= s < m implies #[trigger] self.cell(s) is Some by {
                        if s != target {
                            assert(old(self).cell(s) is Some);
                        }
                    };
                }
            };
        }
    }

    /// The write path: installs `data` as the new published version. Takes
    /// the writer exclusion flag, picks the first free slot other than the
    /// published one, installs the value there, republishes the index, and
    /// releases the flag. The previous occupant of the chosen slot, if any,
    /// is dropped.
    pub fn update(&mut self, data: T)
        requires
            old(self).wf(),
            !old(self).is_writing(),
            exists|j: int|
                0 <= j < old(self).n() && j != old(self).current() && old(self).readers(j) == 0,
        ensures
            final(self).wf(),
            old(self).is_target(final(self).current() as int),
            final(self).cells() == old(self).cells().update(
                final(self).current() as int,
                Some(data),
            ),
            final(self).counts() == old(self).counts(),
            final(self).n() == old(self).n(),
            !final(self).is_writing(),
            final(self).history() == old(self).history().push(data),
            forall|m: int|
                #[trigger] old(self).filled_to(m) ==> final(self).filled_to(
                    if m < old(self).n() {
                        m + 1
                    } else {
                        m
                    },
                ),
    {
        let acquired = self.try_begin_write();
        let ghost mid: Cache<T> = *self;
        proof {
            assert(acquired);
            let jw = choose|j: int|
                0 <= j < old(self).n() && j != old(self).current() && old(self).readers(j) == 0;
            assert(0 <= jw < self.n() && jw != self.current() && self.readers(jw) == 0);
        }
        self.finish_write(data);
        proof {
            assert forall|m: int| #[trigger] old(self).filled_to(m) implies self.filled_to(
                if m < old(self).n() {
                    m + 1
                } else {
                    m
                },
            ) by {
                assert forall|s: int| 0 <= s < m implies #[trigger] mid.cell(s) is Some by {
                    assert(old(self).cell(s) is Some);
                };
                assert forall|s: int| m <= s < mid.n() implies #[trigger] mid.cell(s) is None by {
                    assert(old(self).cell(s) is None);
                };
                assert(mid.filled_to(m));
            };
        }
    }

    /// The number of slots, fixed at construction.
    pub fn slot_count(&self) -> (n: usize)
        ensures
            n == self.n(),
    {
        self.items.len()
    }

    /// The slot currently named by the published index.
    pub fn published_slot(&self) -> (i: usize)
        requires
            self.wf(),
        ensures
            i == self.current(),
    {
        self.current_slot()
    }

    /// The number of readers currently inside a slot.
    pub fn reader_count(&self, slot: usize) -> (c: usize)
        requires
            slot < self.n(),
        ensures
            c == self.readers(slot as int),
    {
        padded_usize_read(&self.items[slot].count)
    }

    /// The number of slots whose cell currently holds a value.
    pub fn occupied_slots(&self) -> (k: usize)
        ensures
            k == count_full(self.cells(), self.n() as int),
    {
        let n = self.items.len();
        let mut k: usize = 0;
        let mut i: usize = 0;
        while i < n
            invariant
                i <= n,
                n == self.n(),
                k <= i,
                k as int == count_full(self.cells(), i as int),
            decreases n - i,
        {
            proof {
                assert(self.cells()[i as int] == self.items@[i as int].data);
            }
            if self.items[i].data.is_some() {
                k = k + 1;
            }
            i = i + 1;
        }
        k
    }

    /// Law: a full cell never holds a torn or made-up value — whatever slot a
    /// reader finds itself in, the cell's contents were installed by some
    /// write or are the initial value. In particular this holds of the
    /// published value that `get_data` clones.
    pub proof fn lemma_reads_return_installed_values(self, slot: int)
        requires
            self.wf(),
            0 <= slot < self.n(),
            self.readers(slot) > 0 || slot == self.current(),
        ensures
            self.cell(slot) is Some,
            self.history().contains(self.cell(slot)->0),
            self.history().contains(self.published()),
    {
    }

    /// Law: the set of installed values only ever grows. A write turns the
    /// history of `pre` into that of `post` by appending the written value,
    /// so every value a read could have returned before the write — any
    /// member of the history — is still in the history after it, and the
    /// written value has joined it.
    pub proof fn lemma_installed_values_persist(pre: Cache<T>, post: Cache<T>, v: T, data: T)
        requires
            post.history() == pre.history().push(data),
            pre.history().contains(v),
        ensures
            post.history().contains(v),
            post.history().contains(data),
    {
        let i = choose|i: int| 0 <= i < pre.history().len() && pre.history()[i] == v;
        assert(post.history()[i] == v);
        assert(post.history()[post.history().len() - 1] == data);
    }

    /// Law: while the slots fill up, a cache whose first `m` cells are full
    /// holds exactly `m` values. A fresh cache satisfies `filled_to(1)` and
    /// each write raises `m` by one until it reaches the slot count, so after
    /// `k` writes exactly `min(k + 1, n)` cells are full — which is what
    /// dropping the cache then drops.
    pub proof fn lemma_filled_occupancy(self, m: int)
        requires
            self.filled_to(m),
        ensures
            count_full(self.cells(), self.n() as int) == m,
    {
        assert forall|s: int| 0 <= s < m implies #[trigger] self.cells()[s] is Some by {
            assert(self.cell(s) is Some);
        };
        assert forall|s: int| m <= s < self.cells().len() implies #[trigger] self.cells()[s] is None by {
            assert(self.cell(s) is None);
        };
        lemma_count_full_prefix(self.cells(), m, self.n() as int);
    }
}

} // verus!
