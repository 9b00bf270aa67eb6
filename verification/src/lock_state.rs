//! The lock word of a tree bin: one writer bit, one waiter bit, and a count
//! of readers above them.
//!
//! The functions here say what a thread does on seeing a value of the
//! word, and what it makes of the word. Whoever holds the word applies
//! them.
use vstd::prelude::*;

verus! {

/// Set while a thread holds the write lock.
pub const WRITER: u64 = 1;

/// Set while a thread waits for the write lock.
pub const WAITER: u64 = 2;

/// What one reader adds to the word.
pub const READER: u64 = 4;

/// Whether a reader that sees `state` has to leave the index alone and
/// walk the linked ordering: a writer holds the lock or waits for it.
pub fn reader_must_walk(state: u64) -> (r: bool)
    ensures
        r == (state & (WAITER | WRITER) != 0),
{
    state & (WAITER | WRITER) != 0
}

/// The word after one more reader has entered.
pub fn reader_enters(state: u64) -> (r: u64)
    requires
        state & (WAITER | WRITER) == 0,
        state <= u64::MAX - READER,
    ensures
        r == state + READER,
        r & (WAITER | WRITER) == 0,
{
    assert(2u64 | 1u64 == 3u64) by (bit_vector);
    assert(state & 3 == 0 && state <= 0xffff_ffff_ffff_fffb ==> ((state + 4) as u64) & 3 == 0)
        by (bit_vector);
    state + READER
}

/// The word after a reader has left, and whether the reader has to wake
/// the waiting writer: it has to if it was the last reader and a writer
/// waits.
pub fn reader_leaves(state: u64) -> (r: (u64, bool))
    requires
        state >= READER,
    ensures
        r.0 == state - READER,
        r.1 == (state == (READER | WAITER)),
{
    (state - READER, state == (READER | WAITER))
}

/// What a thread that wants the write lock does next.
#[derive(Debug, Clone, Copy, PartialEq, Eq, Structural)]
pub enum LockStep {
    /// It takes the lock: the word becomes `WRITER`.
    Acquire,
    /// It announces itself: the waiter bit is set.
    Announce,
    /// It has announced itself and sleeps until it is woken.
    Park,
    /// Another thread waits already; it tries again.
    Spin,
}

/// Decides the next step of a thread that wants the write lock, on seeing
/// `state`; `waiting` says whether the thread has announced itself.
pub fn contended_step(state: u64, waiting: bool) -> (r: LockStep)
    ensures
        r == if state & !WAITER == 0 {
            LockStep::Acquire
        } else if state & WAITER == 0 {
            LockStep::Announce
        } else if waiting {
            LockStep::Park
        } else {
            LockStep::Spin
        },
{
    if state & !WAITER == 0 {
        LockStep::Acquire
    } else if state & WAITER == 0 {
        LockStep::Announce
    } else if waiting {
        LockStep::Park
    } else {
        LockStep::Spin
    }
}

/// The word that a step of a thread that wants the write lock leaves.
pub fn after_step(state: u64, step: LockStep) -> (r: u64)
    ensures
        r == match step {
            LockStep::Acquire => WRITER,
            LockStep::Announce => state | WAITER,
            _ => state,
        },
{
    match step {
        LockStep::Acquire => WRITER,
        LockStep::Announce => state | WAITER,
        _ => state,
    }
}

/// A thread takes the write lock only from a word that counts no reader
/// and has no writer; and while the writer bit is set, every reader walks
/// the linked ordering.
pub proof fn law_writer_excludes_readers(state: u64)
    ensures
        contended_step_spec(state) == LockStep::Acquire ==> state / READER == 0 && state & WRITER
            == 0,
        state & WRITER != 0 ==> (state & (WAITER | WRITER) != 0),
{
    assert(state & !2u64 == 0 ==> state / 4 == 0 && state & 1 == 0) by (bit_vector);
    assert(2u64 | 1u64 == 3u64) by (bit_vector);
    assert(state & 1 != 0 ==> state & 3 != 0) by (bit_vector);
}

/// The step of a thread that has not announced itself yet.
pub open spec fn contended_step_spec(state: u64) -> LockStep {
    if state & !WAITER == 0 {
        LockStep::Acquire
    } else if state & WAITER == 0 {
        LockStep::Announce
    } else {
        LockStep::Spin
    }
}

} // verus!
