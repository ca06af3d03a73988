//! A collection of event listeners that drops the listeners whose channel
//! was closed.
//!
//! The channels are tokio's; whether a send succeeds is decided there. What
//! is decided here, and verified, is which listeners stay.

use vstd::prelude::*;
use tokio::sync::mpsc::{UnboundedReceiver, UnboundedSender};
use tokio_stream::wrappers::UnboundedReceiverStream;

verus! {

/// The sending half of tokio's unbounded channel.
#[verifier::external_type_specification]
#[verifier::external_body]
#[verifier::reject_recursive_types(T)]
pub struct ExUnboundedSender<T>(UnboundedSender<T>);

/// The receiving half of tokio's unbounded channel.
#[verifier::external_type_specification]
#[verifier::external_body]
#[verifier::reject_recursive_types(T)]
pub struct ExUnboundedReceiver<T>(UnboundedReceiver<T>);

/// The receiving half of tokio's unbounded channel as a stream.
#[verifier::external_type_specification]
#[verifier::external_body]
#[verifier::reject_recursive_types(T)]
pub struct ExUnboundedReceiverStream<T>(UnboundedReceiverStream<T>);

/// Calls `UnboundedSender::send` and tells whether the message was
/// accepted. Trusted; nothing is claimed of the answer, which depends on
/// whether the receiving half is still open.
#[verifier::external_body]
fn deliver<T>(listener: &UnboundedSender<T>, event: T) -> (delivered: bool) {
    listener.send(event).is_ok()
}

/// Calls `tokio::sync::mpsc::unbounded_channel`. Trusted; nothing is
/// claimed of the two halves.
#[verifier::external_body]
fn open_channel<T>() -> (halves: (UnboundedSender<T>, UnboundedReceiver<T>)) {
    tokio::sync::mpsc::unbounded_channel()
}

/// Calls `UnboundedReceiverStream::new`. Trusted; nothing is claimed of the
/// stream.
#[verifier::external_body]
fn into_stream<T>(receiver: UnboundedReceiver<T>) -> (stream: UnboundedReceiverStream<T>) {
    UnboundedReceiverStream::new(receiver)
}

/// Calls `std::ptr::eq` on two listeners. Trusted; nothing is claimed of
/// the answer, which depends on where the two values live.
#[verifier::external_body]
fn same_place<T>(a: &UnboundedSender<T>, b: &UnboundedSender<T>) -> (same: bool) {
    std::ptr::eq(a, b)
}

/// The items whose mark is set, in their old order.
pub open spec fn kept<A>(items: Seq<A>, marks: Seq<bool>) -> Seq<A>
    decreases items.len(),
{
    if items.len() == 0 {
        Seq::empty()
    } else if marks[0] {
        seq![items[0]] + kept(items.drop_first(), marks.drop_first())
    } else {
        kept(items.drop_first(), marks.drop_first())
    }
}

/// Keeping marked items never adds one.
pub proof fn lemma_kept_len<A>(items: Seq<A>, marks: Seq<bool>)
    ensures
        kept(items, marks).len() <= items.len(),
    decreases items.len(),
{
    if items.len() > 0 {
        lemma_kept_len(items.drop_first(), marks.drop_first());
    }
}

/// A collection of event listeners for a task.
#[derive(Clone, Debug)]
#[verifier::reject_recursive_types(T)]
pub struct EventListeners<T> {
    /// All listeners for events.
    listeners: Vec<UnboundedSender<T>>,
}

impl<T> View for EventListeners<T> {
    type V = Seq<UnboundedSender<T>>;

    closed spec fn view(&self) -> Seq<UnboundedSender<T>> {
        self.listeners@
    }
}

impl<T> Default for EventListeners<T> {
    fn default() -> (r: Self)
        ensures
            r@.len() == 0,
    {
        Self { listeners: Vec::new() }
    }
}

impl<T: Clone> EventListeners<T> {
    /// Send an event to all listeners.
    ///
    /// Channels that were closed are removed: the listeners that stay are
    /// those that accepted the event, in their old order.
    pub fn notify(&mut self, event: T)
        ensures
            final(self)@.len() <= old(self)@.len(),
            exists|marks: Seq<bool>|
                marks.len() == old(self)@.len() && final(self)@ == kept(old(self)@, marks),
    {
        let mut delivered: Vec<bool> = Vec::new();
        let mut i: usize = 0;
        while i < self.listeners.len()
            invariant
                i <= self.listeners@.len(),
                delivered@.len() == i,
                *self == *old(self),
            decreases self.listeners@.len() - i,
        {
            delivered.push(deliver(&self.listeners[i], event.clone()));
            i += 1;
        }
        self.retain_delivered(&delivered);
        proof {
            lemma_kept_len(old(self)@, delivered@);
        }
    }

    /// Keeps the listeners whose mark is set and drops the others.
    pub fn retain_delivered(&mut self, delivered: &Vec<bool>)
        requires
            delivered@.len() == old(self)@.len(),
        ensures
            final(self)@ == kept(old(self)@, delivered@),
    {
        let ghost before = self@;
        let ghost marks = delivered@;
        let mut i: usize = self.listeners.len();
        proof {
            assert(before.skip(i as int).len() == 0);
            assert(before.take(i as int) =~= before);
            assert(self@ =~= before.take(i as int) + kept(before.skip(i as int), marks.skip(i as int)));
        }
        while i > 0
            invariant
                i <= before.len(),
                marks == delivered@,
                marks.len() == before.len(),
                self@ == before.take(i as int) + kept(before.skip(i as int), marks.skip(i as int)),
            decreases i,
        {
            i -= 1;
            proof {
                let tail = before.skip(i as int);
                let tail_marks = marks.skip(i as int);
                assert(tail[0] == before[i as int]);
                assert(tail_marks[0] == marks[i as int]);
                assert(tail.drop_first() =~= before.skip(i + 1));
                assert(tail_marks.drop_first() =~= marks.skip(i + 1));
                assert(before.take(i + 1) =~= before.take(i as int).push(before[i as int]));
            }
            let ghost rest = kept(before.skip(i + 1), marks.skip(i + 1));
            if !delivered[i] {
                let ghost current = self@;
                self.listeners.remove(i);
                proof {
                    assert(current.remove(i as int) =~= before.take(i as int) + rest);
                }
            } else {
                proof {
                    assert(self@ =~= before.take(i as int) + (seq![before[i as int]] + rest));
                }
            }
        }
        proof {
            assert(before.take(0) + kept(before.skip(0), marks.skip(0)) =~= kept(
                before.skip(0),
                marks.skip(0),
            ));
            assert(before.skip(0) =~= before);
            assert(marks.skip(0) =~= marks);
        }
    }

    /// Add a new event listener.
    pub fn new_listener(&mut self) -> (stream: UnboundedReceiverStream<T>)
        ensures
            final(self)@.len() == old(self)@.len() + 1,
            final(self)@.drop_last() == old(self)@,
    {
        let (sender, receiver) = open_channel();
        self.listeners.push(sender);
        proof {
            assert(self@.drop_last() =~= old(self)@);
        }
        into_stream(receiver)
    }

    /// Push new event listener.
    pub fn push_listener(&mut self, listener: UnboundedSender<T>)
        ensures
            final(self)@ == old(self)@.push(listener),
    {
        self.listeners.push(listener);
    }

    /// Removes a listener if it exists: the first listener that is the
    /// given one, by where it lives, is taken out.
    pub fn remove_listener(&mut self, listener: &UnboundedSender<T>) -> (removed: bool)
        ensures
            exists|same: Seq<bool>|
                same.len() == old(self)@.len() && #[trigger] removal(old(self)@, same) == (
                    final(self)@,
                    removed,
                ),
            old(self)@.len() == 0 ==> !removed,
            removed ==> final(self)@.len() + 1 == old(self)@.len(),
            !removed ==> final(self)@ == old(self)@,
    {
        let mut same: Vec<bool> = Vec::new();
        let mut pos: usize = 0;
        while pos < self.listeners.len()
            invariant
                pos <= self.listeners@.len(),
                same@.len() == pos,
                *self == *old(self),
            decreases self.listeners@.len() - pos,
        {
            same.push(same_place(&self.listeners[pos], listener));
            pos += 1;
        }
        proof {
            lemma_first_marked(same@);
        }
        self.remove_first_marked(&same)
    }

    /// Takes out the first listener whose mark is set, and tells whether
    /// there was one.
    pub fn remove_first_marked(&mut self, marks: &Vec<bool>) -> (removed: bool)
        requires
            marks@.len() == old(self)@.len(),
        ensures
            removal(old(self)@, marks@) == (final(self)@, removed),
    {
        let mut pos: usize = 0;
        proof {
            assert(marks@.take(0).len() == 0);
        }
        while pos < marks.len()
            invariant
                pos <= marks@.len(),
                marks@.len() == self@.len(),
                *self == *old(self),
                first_marked(marks@.take(pos as int)) is None,
            decreases marks@.len() - pos,
        {
            proof {
                assert(marks@.take(pos + 1).drop_last() =~= marks@.take(pos as int));
                assert(marks@.take(pos + 1).last() == marks@[pos as int]);
            }
            if marks[pos] {
                proof {
                    lemma_first_marked_prefix(marks@, pos + 1);
                }
                self.listeners.remove(pos);
                return true;
            }
            pos += 1;
        }
        proof {
            assert(marks@.take(pos as int) =~= marks@);
        }
        false
    }

    /// Returns the number of registered listeners.
    pub fn listener_count(&self) -> (n: usize)
        ensures
            n == self@.len(),
    {
        self.listeners.len()
    }

    /// Returns true if there are no registered listeners.
    pub fn is_empty(&self) -> (b: bool)
        ensures
            b == (self@.len() == 0),
    {
        self.listeners.len() == 0
    }
}

/// The position of the first mark that is set.
pub open spec fn first_marked(marks: Seq<bool>) -> Option<int>
    decreases marks.len(),
{
    if marks.len() == 0 {
        None
    } else {
        match first_marked(marks.drop_last()) {
            Some(pos) => Some(pos),
            None => if marks.last() {
                Some(marks.len() - 1)
            } else {
                None
            },
        }
    }
}

/// What taking out the first marked item leaves and answers: the items
/// without that one and `true`, or all items and `false` if no mark is set.
pub open spec fn removal<A>(items: Seq<A>, marks: Seq<bool>) -> (Seq<A>, bool) {
    match first_marked(marks) {
        Some(pos) => (items.remove(pos), true),
        None => (items, false),
    }
}

/// The first set mark, if there is one, is a set mark with none before it.
pub proof fn lemma_first_marked(marks: Seq<bool>)
    ensures
        match first_marked(marks) {
            Some(pos) => 0 <= pos < marks.len() && marks[pos] && forall|k: int|
                0 <= k < pos ==> !marks[k],
            None => forall|k: int| 0 <= k < marks.len() ==> !marks[k],
        },
    decreases marks.len(),
{
    if marks.len() > 0 {
        lemma_first_marked(marks.drop_last());
        assert forall|k: int| 0 <= k < marks.len() - 1 implies marks.drop_last()[k] == marks[k] by {}
    }
}

/// A set mark that a prefix of the marks has first is the first of all.
pub proof fn lemma_first_marked_prefix(marks: Seq<bool>, m: int)
    requires
        0 <= m <= marks.len(),
        first_marked(marks.take(m)) is Some,
    ensures
        first_marked(marks) == first_marked(marks.take(m)),
    decreases marks.len() - m,
{
    if m < marks.len() {
        assert(marks.take(m + 1).drop_last() =~= marks.take(m));
        lemma_first_marked_prefix(marks, m + 1);
    } else {
        assert(marks.take(m) =~= marks);
    }
}

} // verus!
