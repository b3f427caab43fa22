//! The bridge from the keyboard interrupt to the task that reads scancodes:
//! a bounded queue of raw bytes and one slot for the waiting task.
use vstd::prelude::*;

use crossbeam_queue::ArrayQueue;
use pc_keyboard::{layouts, DecodedKey, HandleControl, Keyboard, ScancodeSet1};

use crate::task::TaskId;

verus! {

/// Bytes the bridge holds before it drops input.
pub const SCANCODE_QUEUE_CAPACITY: usize = 100;

#[verifier::external_type_specification]
#[verifier::external_body]
#[verifier::reject_recursive_types(T)]
pub struct ExArrayQueue<T>(ArrayQueue<T>);

/// The bytes a queue holds, oldest first.
pub uninterp spec fn queue_contents(q: ArrayQueue<u8>) -> Seq<u8>;

/// The capacity a queue was made with.
pub uninterp spec fn queue_capacity(q: ArrayQueue<u8>) -> nat;

/// Relies on `ArrayQueue::new`: an empty queue of the given capacity (it
/// panics on zero).
#[verifier::external_body]
fn new_byte_queue(cap: usize) -> (r: ArrayQueue<u8>)
    requires
        0 < cap <= SCANCODE_QUEUE_CAPACITY,
    ensures
        queue_contents(r) == Seq::<u8>::empty(),
        queue_capacity(r) == cap,
{
    ArrayQueue::new(cap)
}

/// Relies on `ArrayQueue::push_mut`: appends the byte unless the queue is
/// full, in which case the byte comes back as the error.
#[verifier::external_body]
fn queue_push(q: &mut ArrayQueue<u8>, byte: u8) -> (r: Result<(), u8>)
    ensures
        queue_capacity(*final(q)) == queue_capacity(*old(q)),
        queue_contents(*old(q)).len() < queue_capacity(*old(q)) ==> {
            &&& r == Ok::<(), u8>(())
            &&& queue_contents(*final(q)) == queue_contents(*old(q)).push(byte)
        },
        queue_contents(*old(q)).len() >= queue_capacity(*old(q)) ==> {
            &&& r == Err::<(), u8>(byte)
            &&& queue_contents(*final(q)) == queue_contents(*old(q))
        },
{
    q.push_mut(byte)
}

/// Relies on `ArrayQueue::pop_mut`: removes the oldest byte, `None` when the
/// queue is empty.
#[verifier::external_body]
fn queue_pop(q: &mut ArrayQueue<u8>) -> (r: Option<u8>)
    ensures
        queue_capacity(*final(q)) == queue_capacity(*old(q)),
        queue_contents(*old(q)).len() == 0 ==> {
            &&& r.is_none()
            &&& queue_contents(*final(q)) == queue_contents(*old(q))
        },
        queue_contents(*old(q)).len() > 0 ==> {
            &&& r == Some(queue_contents(*old(q))[0])
            &&& queue_contents(*final(q)) == queue_contents(*old(q)).drop_first()
        },
{
    q.pop_mut()
}

/// The queue after pushing `byte` into `q` of capacity `cap`: the byte is
/// appended, or dropped when the queue is full.
pub open spec fn push_model(q: Seq<u8>, cap: nat, byte: u8) -> Seq<u8> {
    if q.len() < cap {
        q.push(byte)
    } else {
        q
    }
}

/// The queue after pushing each of `bytes` in turn.
pub open spec fn push_all(q: Seq<u8>, cap: nat, bytes: Seq<u8>) -> Seq<u8>
    decreases bytes.len(),
{
    if bytes.len() == 0 {
        q
    } else {
        push_model(push_all(q, cap, bytes.drop_last()), cap, bytes.last())
    }
}

/// The abstract state of the bridge.
pub struct BridgeState {
    pub queue: Seq<u8>,
    pub capacity: nat,
    pub waker: Option<TaskId>,
}

/// What became of a pushed byte.
#[derive(Clone, Copy, Debug, PartialEq, Eq, Structural)]
pub enum PushOutcome {
    /// Queued; the task waiting for input, if any, is to be woken.
    Queued(Option<TaskId>),
    /// The queue was full and the byte was lost.
    Dropped,
}

/// One attempt to read the next byte.
#[derive(Clone, Copy, Debug, PartialEq, Eq, Structural)]
pub enum StreamPoll {
    Ready(u8),
    Pending,
}

/// The consuming end of the bridge, with the queue the interrupt handler
/// fills and the slot for the task waiting on it.
///
/// The queue is owned by this value, so each stream is its own bridge and a
/// second stream cannot take input meant for the first; the program makes
/// one. Both ends go through `&mut self`: the lock-free sharing between
/// interrupt and task context is left to whoever holds the stream.
pub struct ScancodeStream {
    queue: ArrayQueue<u8>,
    waker: Option<TaskId>,
}

impl View for ScancodeStream {
    type V = BridgeState;

    closed spec fn view(&self) -> BridgeState {
        BridgeState {
            queue: queue_contents(self.queue),
            capacity: queue_capacity(self.queue),
            waker: self.waker,
        }
    }
}

impl ScancodeStream {
    pub open spec fn wf(&self) -> bool {
        &&& self@.capacity == SCANCODE_QUEUE_CAPACITY
        &&& self@.queue.len() <= self@.capacity
    }

    /// An empty bridge with no waiting task.
    pub fn new() -> (r: Self)
        ensures
            r.wf(),
            r@.queue == Seq::<u8>::empty(),
            r@.waker.is_none(),
    {
        ScancodeStream { queue: new_byte_queue(SCANCODE_QUEUE_CAPACITY), waker: None }
    }

    /// Producer side, for the interrupt handler: queues the byte and hands
    /// back the waiting task to wake, or drops the byte when the queue is
    /// full. Never blocks.
    pub fn add_scancode(&mut self, scancode: u8) -> (r: PushOutcome)
        requires
            old(self).wf(),
        ensures
            final(self).wf(),
            final(self)@.queue == push_model(old(self)@.queue, old(self)@.capacity, scancode),
            old(self)@.queue.len() < old(self)@.capacity ==> {
                &&& r == PushOutcome::Queued(old(self)@.waker)
                &&& final(self)@.waker.is_none()
            },
            old(self)@.queue.len() >= old(self)@.capacity ==> {
                &&& r == PushOutcome::Dropped
                &&& final(self)@.waker == old(self)@.waker
            },
    {
        match queue_push(&mut self.queue, scancode) {
            Ok(()) => {
                let woken = self.waker;
                self.waker = None;
                PushOutcome::Queued(woken)
            },
            Err(_) => PushOutcome::Dropped,
        }
    }

    /// Consumer side: the oldest byte if one is queued, without touching the
    /// waiting slot; otherwise registers `waiter`, checks the queue once
    /// more, and reports pending if it is still empty.
    pub fn poll_next(&mut self, waiter: TaskId) -> (r: StreamPoll)
        requires
            old(self).wf(),
        ensures
            final(self).wf(),
            old(self)@.queue.len() > 0 ==> {
                &&& r == StreamPoll::Ready(old(self)@.queue[0])
                &&& final(self)@.queue == old(self)@.queue.drop_first()
                &&& final(self)@.waker == old(self)@.waker
            },
            old(self)@.queue.len() == 0 ==> {
                &&& r == StreamPoll::Pending
                &&& final(self)@.queue == old(self)@.queue
                &&& final(self)@.waker == Some(waiter)
            },
    {
        match queue_pop(&mut self.queue) {
            Some(scancode) => StreamPoll::Ready(scancode),
            None => {
                self.waker = Some(waiter);
                match queue_pop(&mut self.queue) {
                    Some(scancode) => {
                        self.waker = None;
                        StreamPoll::Ready(scancode)
                    },
                    None => StreamPoll::Pending,
                }
            },
        }
    }

    /// One activation of the task that reads keys: takes every queued byte,
    /// oldest first, then registers `waiter` for the next input.
    pub fn drain(&mut self, waiter: TaskId) -> (r: Vec<u8>)
        requires
            old(self).wf(),
        ensures
            final(self).wf(),
            r@ == old(self)@.queue,
            final(self)@.queue == Seq::<u8>::empty(),
            final(self)@.waker == Some(waiter),
    {
        let mut bytes: Vec<u8> = Vec::new();
        loop
            invariant
                self.wf(),
                bytes@ + self@.queue == old(self)@.queue,
            decreases self@.queue.len(),
        {
            let ghost before = self@.queue;
            match self.poll_next(waiter) {
                StreamPoll::Ready(scancode) => {
                    bytes.push(scancode);
                    assert(bytes@ + self@.queue =~= old(self)@.queue) by {
                        assert(before =~= seq![scancode] + before.drop_first());
                    }
                },
                StreamPoll::Pending => {
                    assert(bytes@ =~= old(self)@.queue);
                    return bytes;
                },
            }
        }
    }
}

/// A decoded key: a character, or the code of a key that has none.
#[derive(Clone, Copy, Debug, PartialEq, Eq, Structural)]
pub enum Key {
    Char(char),
    Raw(u8),
}

/// The scancode decoder for a US 104-key keyboard sending scancode set 1,
/// with Ctrl combinations left as plain letters. Held opaquely: the
/// decoder's generics are bound by its own crate's traits.
#[verifier::external_body]
pub struct KeyDecoder {
    kb: Keyboard<layouts::Us104Key, ScancodeSet1>,
}

/// The bytes fed to a decoder since it was made.
pub uninterp spec fn decoder_input(d: KeyDecoder) -> Seq<u8>;

/// The key a fresh decoder yields on the last byte of `input`, after being
/// fed the bytes before it.
pub uninterp spec fn key_of(input: Seq<u8>) -> Option<Key>;

/// Relies on `Keyboard::new`: a decoder that has seen no input.
#[verifier::external_body]
pub fn new_decoder() -> (r: KeyDecoder)
    ensures
        decoder_input(r) == Seq::<u8>::empty(),
{
    KeyDecoder { kb: Keyboard::new(ScancodeSet1::new(), layouts::Us104Key, HandleControl::Ignore) }
}

/// Relies on `Keyboard::add_byte` and `Keyboard::process_keyevent`: the key,
/// if any, completed by this byte depends on the bytes fed so far alone.
#[verifier::external_body]
fn decode_byte(d: &mut KeyDecoder, byte: u8) -> (r: Option<Key>)
    ensures
        decoder_input(*final(d)) == decoder_input(*old(d)).push(byte),
        r == key_of(decoder_input(*old(d)).push(byte)),
{
    match d.kb.add_byte(byte) {
        Ok(Some(event)) => match d.kb.process_keyevent(event) {
            Some(DecodedKey::Unicode(c)) => Some(Key::Char(c)),
            Some(DecodedKey::RawKey(code)) => Some(Key::Raw(code as u8)),
            None => None,
        },
        _ => None,
    }
}

/// The keys a decoder that has seen `seen` yields on `bytes`, in order,
/// skipping bytes that complete none.
pub open spec fn keys_of(seen: Seq<u8>, bytes: Seq<u8>) -> Seq<Key>
    decreases bytes.len(),
{
    if bytes.len() == 0 {
        Seq::empty()
    } else {
        let prev = keys_of(seen, bytes.drop_last());
        match key_of(seen + bytes) {
            Some(k) => prev.push(k),
            None => prev,
        }
    }
}

/// Feeds `bytes` to the decoder in order and returns the keys they complete.
pub fn decode_keys(d: &mut KeyDecoder, bytes: &Vec<u8>) -> (r: Vec<Key>)
    ensures
        decoder_input(*final(d)) == decoder_input(*old(d)) + bytes@,
        r@ == keys_of(decoder_input(*old(d)), bytes@),
{
    let mut keys: Vec<Key> = Vec::new();
    let mut i: usize = 0;
    while i < bytes.len()
        invariant
            i <= bytes@.len(),
            decoder_input(*d) == decoder_input(*old(d)) + bytes@.take(i as int),
            keys@ == keys_of(decoder_input(*old(d)), bytes@.take(i as int)),
        decreases bytes@.len() - i,
    {
        let ghost seen = decoder_input(*d);
        let k = decode_byte(d, bytes[i]);
        proof {
            let t = bytes@.take(i as int + 1);
            assert(t.drop_last() =~= bytes@.take(i as int));
            assert(decoder_input(*old(d)) + t =~= seen.push(bytes@[i as int]));
        }
        match k {
            Some(key) => keys.push(key),
            None => {},
        }
        i = i + 1;
        assert(decoder_input(*d) =~= decoder_input(*old(d)) + bytes@.take(i as int));
    }
    assert(bytes@.take(i as int) =~= bytes@);
    keys
}

/// Pushing bytes into a queue that nobody drains keeps the first bytes up to
/// the capacity, in order, and drops every later one.
pub proof fn lemma_push_all_keeps_prefix(cap: nat, bytes: Seq<u8>)
    ensures
        push_all(Seq::empty(), cap, bytes) == bytes.take(
            if bytes.len() <= cap { bytes.len() as int } else { cap as int },
        ),
    decreases bytes.len(),
{
    if bytes.len() > 0 {
        let prefix = bytes.drop_last();
        lemma_push_all_keeps_prefix(cap, prefix);
        if bytes.len() <= cap {
            assert(prefix.push(bytes.last()) =~= bytes);
            assert(prefix.take(prefix.len() as int) =~= prefix);
            assert(bytes.take(bytes.len() as int) =~= bytes);
        } else {
            assert(prefix.take(cap as int) =~= bytes.take(cap as int));
        }
    }
}

/// With a full queue of `cap` bytes, the next push is dropped: of `cap + 1`
/// bytes pushed into an empty queue, exactly the last is lost.
pub proof fn lemma_overflow_drops_last(cap: nat, bytes: Seq<u8>)
    requires
        bytes.len() == cap + 1,
    ensures
        push_all(Seq::empty(), cap, bytes.drop_last()) == bytes.take(cap as int),
        push_all(Seq::empty(), cap, bytes) == push_all(Seq::empty(), cap, bytes.drop_last()),
{
    lemma_push_all_keeps_prefix(cap, bytes.drop_last());
    lemma_push_all_keeps_prefix(cap, bytes);
    assert(bytes.drop_last().take(cap as int) =~= bytes.take(cap as int));
}

} // verus!
