//! A generic journal facility.
//!
//! A journal is an append-only ordered sequence of events of one kind. The
//! writer owns the storage and appends; readers are snapshots handed out for
//! inspection; cursors hold a private position and replay the journal they
//! are applied to one event at a time, at their own pace.

use vstd::prelude::*;

verus! {

/// Whether `longer` holds `shorter` as a prefix: journals only ever grow, so
/// the view of a journal after some operation extends its view before it.
pub open spec fn extends<T>(longer: Seq<T>, shorter: Seq<T>) -> bool {
    shorter.len() <= longer.len() && longer.take(shorter.len() as int) == shorter
}

/// Extension is transitive.
pub proof fn lemma_extends_trans<T>(a: Seq<T>, b: Seq<T>, c: Seq<T>)
    requires
        extends(a, b),
        extends(b, c),
    ensures
        extends(a, c),
{
    assert(a.take(c.len() as int) =~= c) by {
        assert forall|k: int| 0 <= k < c.len() implies a[k] == c[k] by {
            assert(a.take(b.len() as int)[k] == a[k]);
            assert(b.take(c.len() as int)[k] == b[k]);
        }
    }
}

/// A writer to the journal.
///
/// The writer owns the storage: it can read and append events.
#[derive(Clone, Debug)]
pub struct JournalWriter<T> {
    events: Vec<T>,
}

impl<T> View for JournalWriter<T> {
    type V = Seq<T>;

    /// A journal denotes the sequence of events appended so far.
    closed spec fn view(&self) -> Seq<T> {
        self.events@
    }
}

impl<T> JournalWriter<T> {
    /// Creates an empty JournalWriter.
    pub fn new() -> (r: Self)
        ensures
            r@ == Seq::<T>::empty(),
    {
        JournalWriter { events: Vec::new() }
    }

    /// Returns the size of the journal, so far.
    pub fn len(&self) -> (r: usize)
        ensures
            r == self@.len(),
    {
        self.events.len()
    }

    /// Appends an event to the journal.
    pub fn append_event(&mut self, event: T)
        ensures
            final(self)@ == old(self)@.push(event),
    {
        self.events.push(event)
    }
}

impl<T: Copy> JournalWriter<T> {
    /// Returns a clone of the event at the specified index, if any.
    pub fn get_event(&self, index: usize) -> (r: Option<T>)
        ensures
            r == if index < self@.len() {
                Some(self@[index as int])
            } else {
                None::<T>
            },
    {
        if index < self.events.len() {
            Some(self.events[index])
        } else {
            None
        }
    }
}

impl<T> JournalWriter<T> {
    /// Creates a JournalReader over the current writer.
    ///
    /// The reader shares the journal's storage, without copying it.
    pub fn reader(&self) -> (r: JournalReader<'_, T>)
        ensures
            r@ == self@,
    {
        JournalReader { journal: self }
    }
}

/// A reader of the journal.
///
/// The reader shares the journal's storage, without copying it: its view is
/// the journal's own, live sequence of events. It can only, well, read.
#[derive(Debug)]
pub struct JournalReader<'a, T> {
    journal: &'a JournalWriter<T>,
}

impl<'a, T> Clone for JournalReader<'a, T> {
    fn clone(&self) -> (r: Self)
        ensures
            r == *self,
    {
        JournalReader { journal: self.journal }
    }
}

impl<'a, T> Copy for JournalReader<'a, T> {

}

impl<'a, T> View for JournalReader<'a, T> {
    type V = Seq<T>;

    /// A reader denotes the journal's sequence of events.
    closed spec fn view(&self) -> Seq<T> {
        self.journal@
    }
}

impl<'a, T> JournalReader<'a, T> {
    /// Returns the size of the journal, so far.
    pub fn len(&self) -> (r: usize)
        ensures
            r == self@.len(),
    {
        self.journal.len()
    }
}

impl<'a, T: Copy> JournalReader<'a, T> {
    /// Returns a clone of the event at the specified index, if any.
    pub fn get_event(&self, index: usize) -> (r: Option<T>)
        ensures
            r == if index < self@.len() {
                Some(self@[index as int])
            } else {
                None::<T>
            },
    {
        self.journal.get_event(index)
    }

    /// Returns a clone of _all_ the events.
    pub fn get_events(&self) -> (r: Vec<T>)
        ensures
            r@ == self@,
    {
        clone_events(&self.journal.events)
    }
}

/// Single cursor over a journal.
///
/// The cursor holds only its position; the journal to read is handed to each
/// call, so that many cursors can pace independently over one journal.
#[derive(Clone, Copy, Debug, PartialEq, Eq, Hash, Structural)]
pub struct JournalCursor {
    position: usize,
}

impl JournalCursor {
    /// The position of the next event to handle.
    pub closed spec fn position(self) -> int {
        self.position as int
    }

    /// Creates an instance, positioned at the start of the journal.
    pub fn new() -> (r: Self)
        ensures
            r.position() == 0,
    {
        Self { position: 0 }
    }

    /// Returns whether the cursor has processed all elements of the journal
    /// so far.
    pub fn is_done<T>(&self, journal: &JournalWriter<T>) -> (r: bool)
        ensures
            r <==> self.position() == journal@.len(),
    {
        self.position == journal.len()
    }

    /// Handles the next event, and marks it as such.
    ///
    /// Returns a clone of the event at the current position, advancing the
    /// position past it, or None if there is no event to handle, leaving the
    /// position untouched.
    pub fn handle_next<T: Copy>(&mut self, journal: &JournalWriter<T>) -> (r: Option<T>)
        ensures
            old(self).position() < journal@.len() ==> {
                &&& r == Some(journal@[old(self).position()])
                &&& final(self).position() == old(self).position() + 1
            },
            old(self).position() >= journal@.len() ==> r is None && *final(self) == *old(self),
    {
        if self.position < journal.len() {
            let event = journal.get_event(self.position);
            self.position = self.position + 1;
            event
        } else {
            None
        }
    }
}

/// Multiple cursors over a journal, for memory reasons.
///
/// Holds N independent positions, addressed by a small integer index, letting
/// N independent consumers progress over the same journal without N copies of
/// the data.
#[derive(Clone, Copy, Debug, PartialEq, Eq, Hash)]
pub struct JournalMultiCursor<const N: usize> {
    positions: [usize; N],
}

impl<const N: usize> JournalMultiCursor<N> {
    /// The position of the cursor at the given index.
    pub closed spec fn position(self, cursor: int) -> int {
        self.positions@[cursor] as int
    }

    /// Creates an instance, with every position at the start of the journal.
    pub fn new() -> (r: Self)
        ensures
            forall|cursor: int| 0 <= cursor < N ==> #[trigger] r.position(cursor) == 0,
    {
        Self { positions: [0;N] }
    }

    /// Returns whether the given cursor has processed all elements of the
    /// journal so far.
    pub fn is_done<T>(&self, cursor: usize, journal: &JournalWriter<T>) -> (r: bool)
        requires
            cursor < N,
        ensures
            r <==> self.position(cursor as int) == journal@.len(),
    {
        self.positions[cursor] == journal.len()
    }

    /// Handles the next event for a specific cursor, and marks it as such.
    ///
    /// Returns a clone of the event at the cursor's position, advancing that
    /// position past it, or None if there is no event to handle, leaving the
    /// position untouched.
    pub fn handle_next<T: Copy>(&mut self, cursor: usize, journal: &JournalWriter<T>) -> (r: Option<
        T,
    >)
        requires
            cursor < N,
        ensures
            forall|other: int|
                0 <= other < N && other != cursor ==> #[trigger] final(self).position(other) == old(
                    self,
                ).position(other),
            old(self).position(cursor as int) < journal@.len() ==> {
                &&& r == Some(journal@[old(self).position(cursor as int)])
                &&& final(self).position(cursor as int) == old(self).position(cursor as int) + 1
            },
            old(self).position(cursor as int) >= journal@.len() ==> r is None && *final(self)
                == *old(self),
    {
        let position = self.positions[cursor];
        if position < journal.len() {
            let event = journal.get_event(position);
            self.positions[cursor] = position + 1;
            event
        } else {
            None
        }
    }
}

/// Copies the events of a journal into a fresh vector.
fn clone_events<T: Copy>(events: &Vec<T>) -> (r: Vec<T>)
    ensures
        r@ == events@,
{
    let mut result: Vec<T> = Vec::new();
    let mut index: usize = 0;
    while index < events.len()
        invariant
            index <= events@.len(),
            result@ == events@.take(index as int),
        decreases events@.len() - index,
    {
        result.push(events[index]);
        proof {
            assert(result@ =~= events@.take(index + 1));
        }
        index = index + 1;
    }
    proof {
        assert(result@ =~= events@);
    }
    result
}

} // verus!
