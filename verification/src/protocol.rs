//! A small-step model of the concurrent publication protocol.
//!
//! The executable cache runs the protocol one thread at a time; this module
//! checks the protocol itself under every interleaving. A state holds the
//! shared fields — the published index, the writer exclusion flag, each
//! slot's cell and occupancy count — together with every thread's position in
//! the protocol. Any number of readers and writers take steps in any order;
//! [`inv`] is preserved by every step and yields the protocol's safety
//! claims: a reader inside a slot always finds its cell full and holding an
//! installed value, the slot a writer is about to install into has no reader
//! in it and is not the published one, and at most one writer holds the flag
//! at a time.
//!
//! Values are abstracted to installation numbers: number zero is the initial
//! value, and the `k`-th completed installation carries number `k`.

use vstd::prelude::*;

verus! {

/// A slot's cell: empty, or full with the value of installation `v`.
pub enum CellState {
    Empty,
    Full { v: nat },
}

/// Where a reader stands in the read path.
pub enum ReaderState {
    /// Between reads.
    Outside,
    /// Has loaded the published index and raised the occupancy count of the
    /// slot it named, and has not yet lowered it back.
    Inside { slot: int },
}

/// Where a writer stands in the write path.
pub enum WriterState {
    /// Not writing.
    Outside,
    /// Holds the exclusion flag, having seen the published index `cur`.
    Holding { cur: int },
    /// Has probed `target` — distinct from `cur` and free of readers — and
    /// not yet installed into it.
    Selected { cur: int, target: int },
    /// Has installed its value into `target`.
    Installed { cur: int, target: int },
    /// Has republished the index to its target; only the flag release is
    /// left.
    Published,
}

/// One shared state of the protocol, together with every thread's position.
pub struct ProtocolState {
    /// The published slot index.
    pub index: int,
    /// The writer exclusion flag.
    pub writing: bool,
    /// Every slot's cell.
    pub cells: Seq<CellState>,
    /// Every slot's reader occupancy count.
    pub counts: Seq<int>,
    /// How many installations have completed; the next one carries this
    /// number.
    pub installs: nat,
    /// Every reader thread's position.
    pub readers: Seq<ReaderState>,
    /// Every writer thread's position.
    pub writers: Seq<WriterState>,
}

/// One step of the protocol: which thread moves, and how.
pub enum ProtocolStep {
    /// Reader `i` loads the published index and raises that slot's count.
    ReaderEnter { i: int },
    /// Reader `i` lowers the count of the slot it is inside and leaves.
    ReaderExit { i: int },
    /// Writer `w` wins the exclusion flag and loads the published index.
    WriterAcquire { w: int },
    /// Writer `w` finds `target` free of readers and distinct from the slot
    /// it saw published.
    WriterSelect { w: int, target: int },
    /// Writer `w` replaces its target's cell with its new value.
    WriterInstall { w: int },
    /// Writer `w` republishes the index to its target.
    WriterPublish { w: int },
    /// Writer `w` releases the exclusion flag.
    WriterRelease { w: int },
}

/// How many of the readers are inside `slot`.
pub open spec fn readers_in(rs: Seq<ReaderState>, slot: int) -> int
    decreases rs.len(),
{
    if rs.len() == 0 {
        0
    } else {
        readers_in(rs.drop_last(), slot) + if rs.last() == (ReaderState::Inside { slot }) {
            1int
        } else {
            0int
        }
    }
}

/// Replacing one reader's position changes each slot's occupancy by exactly
/// that reader's contribution before and after.
proof fn lemma_readers_in_update(rs: Seq<ReaderState>, i: int, r: ReaderState, slot: int)
    requires
        0 <= i < rs.len(),
    ensures
        readers_in(rs.update(i, r), slot) == readers_in(rs, slot) - (if rs[i]
            == (ReaderState::Inside { slot }) {
            1int
        } else {
            0int
        }) + (if r == (ReaderState::Inside { slot }) {
            1int
        } else {
            0int
        }),
    decreases rs.len(),
{
    if i == rs.len() - 1 {
        assert(rs.update(i, r).drop_last() =~= rs.drop_last());
    } else {
        assert(rs.update(i, r).drop_last() =~= rs.drop_last().update(i, r));
        lemma_readers_in_update(rs.drop_last(), i, r, slot);
    }
}

/// The state a fresh cache starts the protocol in: slot zero full with the
/// initial value, every other slot empty, nothing published but slot zero,
/// no thread inside, `nr` reader threads and `nw` writer threads.
pub open spec fn init(s: ProtocolState, n: int, nr: int, nw: int) -> bool {
    &&& n >= 2
    &&& s.index == 0
    &&& !s.writing
    &&& s.cells == Seq::new(n as nat, |j: int| if j == 0 { CellState::Full { v: 0 } } else { CellState::Empty })
    &&& s.counts == Seq::new(n as nat, |j: int| 0int)
    &&& s.installs == 1
    &&& s.readers == Seq::new(nr as nat, |i: int| ReaderState::Outside)
    &&& s.writers == Seq::new(nw as nat, |w: int| WriterState::Outside)
}

/// The transition relation: `post` is `pre` after `step`.
pub open spec fn next(pre: ProtocolState, post: ProtocolState, step: ProtocolStep) -> bool {
    match step {
        ProtocolStep::ReaderEnter { i } => {
            &&& 0 <= i < pre.readers.len()
            &&& pre.readers[i] is Outside
            &&& post == ProtocolState {
                counts: pre.counts.update(pre.index, pre.counts[pre.index] + 1),
                readers: pre.readers.update(i, ReaderState::Inside { slot: pre.index }),
                ..pre
            }
        },
        ProtocolStep::ReaderExit { i } => {
            &&& 0 <= i < pre.readers.len()
            &&& pre.readers[i] is Inside
            &&& post == ProtocolState {
                counts: pre.counts.update(
                    pre.readers[i]->slot,
                    pre.counts[pre.readers[i]->slot] - 1,
                ),
                readers: pre.readers.update(i, ReaderState::Outside),
                ..pre
            }
        },
        ProtocolStep::WriterAcquire { w } => {
            &&& 0 <= w < pre.writers.len()
            &&& pre.writers[w] is Outside
            &&& !pre.writing
            &&& post == ProtocolState {
                writing: true,
                writers: pre.writers.update(w, WriterState::Holding { cur: pre.index }),
                ..pre
            }
        },
        ProtocolStep::WriterSelect { w, target } => {
            &&& 0 <= w < pre.writers.len()
            &&& pre.writers[w] is Holding
            &&& 0 <= target < pre.cells.len()
            &&& target != pre.writers[w]->Holding_cur
            &&& pre.counts[target] == 0
            &&& post == ProtocolState {
                writers: pre.writers.update(
                    w,
                    WriterState::Selected { cur: pre.writers[w]->Holding_cur, target },
                ),
                ..pre
            }
        },
        ProtocolStep::WriterInstall { w } => {
            &&& 0 <= w < pre.writers.len()
            &&& pre.writers[w] is Selected
            &&& post == ProtocolState {
                cells: pre.cells.update(
                    pre.writers[w]->Selected_target,
                    CellState::Full { v: pre.installs },
                ),
                installs: pre.installs + 1,
                writers: pre.writers.update(
                    w,
                    WriterState::Installed {
                        cur: pre.writers[w]->Selected_cur,
                        target: pre.writers[w]->Selected_target,
                    },
                ),
                ..pre
            }
        },
        ProtocolStep::WriterPublish { w } => {
            &&& 0 <= w < pre.writers.len()
            &&& pre.writers[w] is Installed
            &&& post == ProtocolState {
                index: pre.writers[w]->Installed_target,
                writers: pre.writers.update(w, WriterState::Published),
                ..pre
            }
        },
        ProtocolStep::WriterRelease { w } => {
            &&& 0 <= w < pre.writers.len()
            &&& pre.writers[w] is Published
            &&& post == ProtocolState {
                writing: false,
                writers: pre.writers.update(w, WriterState::Outside),
                ..pre
            }
        },
    }
}

/// The protocol invariant, preserved by every step of every thread.
pub open spec fn inv(s: ProtocolState) -> bool {
    let n = s.cells.len() as int;
    &&& n >= 2
    &&& s.counts.len() == n
    &&& 0 <= s.index < n
    &&& s.cells[s.index] is Full
    &&& s.installs >= 1
    // Every full cell holds an installed value.
    &&& forall|j: int| 0 <= j < n && s.cells[j] is Full ==> (#[trigger] s.cells[j])->v < s.installs
    // Occupancy counts agree with the readers' positions.
    &&& forall|j: int| 0 <= j < n ==> #[trigger] s.counts[j] == readers_in(s.readers, j)
    // A reader is only ever inside a slot whose cell is full.
    &&& forall|i: int|
        0 <= i < s.readers.len() && #[trigger] s.readers[i] is Inside ==> {
            &&& 0 <= s.readers[i]->slot < n
            &&& s.cells[s.readers[i]->slot] is Full
        }
    // A thread inside the write path holds the flag.
    &&& (forall|w: int|
        0 <= w < s.writers.len() && !(#[trigger] s.writers[w] is Outside) ==> s.writing)
    // At most one thread is inside the write path.
    &&& forall|w1: int, w2: int|
        0 <= w1 < s.writers.len() && 0 <= w2 < s.writers.len() && !(#[trigger] s.writers[w1]
            is Outside) && !(#[trigger] s.writers[w2] is Outside) ==> w1 == w2
    // Until it republishes, the flag holder saw the still-current index, and
    // its target — never the published slot — stays free of readers.
    &&& forall|w: int|
        0 <= w < s.writers.len() && #[trigger] s.writers[w] is Holding ==> s.writers[w]->Holding_cur
            == s.index
    &&& forall|w: int|
        0 <= w < s.writers.len() && #[trigger] s.writers[w] is Selected ==> {
            &&& s.writers[w]->Selected_cur == s.index
            &&& 0 <= s.writers[w]->Selected_target < n
            &&& s.writers[w]->Selected_target != s.index
            &&& s.counts[s.writers[w]->Selected_target] == 0
        }
    &&& forall|w: int|
        0 <= w < s.writers.len() && #[trigger] s.writers[w] is Installed ==> {
            &&& s.writers[w]->Installed_cur == s.index
            &&& 0 <= s.writers[w]->Installed_target < n
            &&& s.writers[w]->Installed_target != s.index
            &&& s.counts[s.writers[w]->Installed_target] == 0
            &&& s.cells[s.writers[w]->Installed_target] is Full
        }
}

/// The starting state satisfies the invariant.
pub proof fn init_satisfies_inv(s: ProtocolState, n: int, nr: int, nw: int)
    requires
        init(s, n, nr, nw),
        nr >= 0,
        nw >= 0,
    ensures
        inv(s),
{
    assert forall|j: int| 0 <= j < n implies #[trigger] s.counts[j] == readers_in(s.readers, j) by {
        lemma_readers_in_all_outside(s.readers, j);
    }
}

/// No reader of a crowd standing outside is inside any slot.
proof fn lemma_readers_in_all_outside(rs: Seq<ReaderState>, slot: int)
    requires
        forall|i: int| 0 <= i < rs.len() ==> #[trigger] rs[i] is Outside,
    ensures
        readers_in(rs, slot) == 0,
    decreases rs.len(),
{
    if rs.len() > 0 {
        lemma_readers_in_all_outside(rs.drop_last(), slot);
    }
}

/// The heart of the model: every step of every thread preserves the
/// invariant, whatever the interleaving so far.
pub proof fn step_preserves_inv(pre: ProtocolState, post: ProtocolState, step: ProtocolStep)
    requires
        inv(pre),
        next(pre, post, step),
    ensures
        inv(post),
{
    let n = pre.cells.len() as int;
    match step {
        ProtocolStep::ReaderEnter { i } => {
            assert forall|j: int| 0 <= j < n implies #[trigger] post.counts[j] == readers_in(
                post.readers,
                j,
            ) by {
                lemma_readers_in_update(
                    pre.readers,
                    i,
                    ReaderState::Inside { slot: pre.index },
                    j,
                );
            }
        },
        ProtocolStep::ReaderExit { i } => {
            let slot = pre.readers[i]->slot;
            assert forall|j: int| 0 <= j < n implies #[trigger] post.counts[j] == readers_in(
                post.readers,
                j,
            ) by {
                lemma_readers_in_update(pre.readers, i, ReaderState::Outside, j);
            }
            // A writer's reader-free target stays reader-free: the exiting
            // reader cannot have been inside it.
            assert forall|w: int|
                0 <= w < post.writers.len() && #[trigger] post.writers[w] is Selected implies
                post.counts[post.writers[w]->Selected_target] == 0 by {
                let t = pre.writers[w]->Selected_target;
                if slot == t {
                    assert(pre.counts[t] >= 1) by {
                        lemma_readers_in_positive(pre.readers, i, t);
                    }
                }
            }
            assert forall|w: int|
                0 <= w < post.writers.len() && #[trigger] post.writers[w] is Installed implies
                post.counts[post.writers[w]->Installed_target] == 0 by {
                let t = pre.writers[w]->Installed_target;
                if slot == t {
                    assert(pre.counts[t] >= 1) by {
                        lemma_readers_in_positive(pre.readers, i, t);
                    }
                }
            }
        },
        ProtocolStep::WriterAcquire { w } => {},
        ProtocolStep::WriterSelect { w, target } => {},
        ProtocolStep::WriterInstall { w } => {},
        ProtocolStep::WriterPublish { w } => {},
        ProtocolStep::WriterRelease { w } => {},
    }
}

/// A slot some reader is inside has a positive occupancy count.
proof fn lemma_readers_in_positive(rs: Seq<ReaderState>, i: int, slot: int)
    requires
        0 <= i < rs.len(),
        rs[i] == (ReaderState::Inside { slot }),
    ensures
        readers_in(rs, slot) >= 1,
    decreases rs.len(),
{
    lemma_readers_in_nonneg(rs.drop_last(), slot);
    if i < rs.len() - 1 {
        lemma_readers_in_positive(rs.drop_last(), i, slot);
    }
}

/// Occupancy, being a count, is never negative.
proof fn lemma_readers_in_nonneg(rs: Seq<ReaderState>, slot: int)
    ensures
        readers_in(rs, slot) >= 0,
    decreases rs.len(),
{
    if rs.len() > 0 {
        lemma_readers_in_nonneg(rs.drop_last(), slot);
    }
}

/// Safety claim for readers: whatever the interleaving, a reader inside a
/// slot finds a full cell there, holding a value some completed or in-flight
/// installation put there — never a torn or vacated cell.
pub proof fn theorem_reader_sees_installed(s: ProtocolState, i: int)
    requires
        inv(s),
        0 <= i < s.readers.len(),
        s.readers[i] is Inside,
    ensures
        s.cells[s.readers[i]->slot] is Full,
        s.cells[s.readers[i]->slot]->v < s.installs,
{
}

/// Safety claim for writers: whatever the interleaving, the slot a writer is
/// about to install into is not the published one and has no reader inside
/// it, so the mutation is unobserved.
pub proof fn theorem_install_is_unobserved(s: ProtocolState, w: int)
    requires
        inv(s),
        0 <= w < s.writers.len(),
        s.writers[w] is Selected,
    ensures
        s.writers[w]->Selected_target != s.index,
        s.counts[s.writers[w]->Selected_target] == 0,
        forall|i: int|
            0 <= i < s.readers.len() ==> !(#[trigger] s.readers[i] == (ReaderState::Inside {
                slot: s.writers[w]->Selected_target,
            })),
{
    let t = s.writers[w]->Selected_target;
    assert forall|i: int|
        0 <= i < s.readers.len() implies !(#[trigger] s.readers[i] == (ReaderState::Inside {
        slot: t,
    })) by {
        if s.readers[i] == (ReaderState::Inside { slot: t }) {
            lemma_readers_in_positive(s.readers, i, t);
        }
    }
}

/// Installed values only accumulate: no step lowers the installation count,
/// and a cell once full never becomes empty again. With
/// [`theorem_reader_sees_installed`], a read that happens after the `k`-th
/// installation returns a value from the installations made so far — the
/// initial value or some completed write — and never one that was forgotten.
pub proof fn theorem_installs_monotone(pre: ProtocolState, post: ProtocolState, step: ProtocolStep)
    requires
        inv(pre),
        next(pre, post, step),
    ensures
        post.installs >= pre.installs,
        post.cells.len() == pre.cells.len(),
        forall|j: int|
            0 <= j < pre.cells.len() && #[trigger] pre.cells[j] is Full ==> post.cells[j] is Full,
{
    if step is WriterInstall {
        let w = step->WriterInstall_w;
        assert(0 <= pre.writers[w]->Selected_target < pre.cells.len());
    }
}

/// Safety claim for writer exclusion: whatever the interleaving, at most one
/// writer is anywhere inside the write path.
pub proof fn theorem_single_writer(s: ProtocolState, w1: int, w2: int)
    requires
        inv(s),
        0 <= w1 < s.writers.len(),
        0 <= w2 < s.writers.len(),
        !(s.writers[w1] is Outside),
        !(s.writers[w2] is Outside),
    ensures
        w1 == w2,
        s.writing,
{
}

} // verus!
