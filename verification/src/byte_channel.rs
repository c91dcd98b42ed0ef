//! Simple in-memory byte stream.
//!
//! The bytes between a [`Sender`] and a [`Receiver`] are kept in one buffer. The
//! sender fills it from the front to the end; the receiver empties it from the
//! front to the end. Only when it is filled to the end and emptied to the end
//! does the sender start over.
use vstd::prelude::*;

verus! {

/// The size of the buffer.
pub const BUFFER_LEN: usize = 8096;

/// Whether an operation is done.
#[derive(Debug, PartialEq, Eq)]
pub enum Poll<T> {
    Ready(T),
    Pending,
}

/// The error of a write after the receiver was dropped.
#[derive(Clone, Copy, Debug, PartialEq, Eq, Structural)]
pub struct ReadEndClosed;

/// The state of a channel. `W` wakes whoever waits.
pub struct Inner<W> {
    buffer: Vec<u8>,
    write_cursor: usize,
    read_cursor: usize,
    write_end_closed: bool,
    read_end_closed: bool,
    read_waker: Option<W>,
    write_waker: Option<W>,
}

/// The mathematical state of a channel.
#[verifier::ext_equal]
pub struct State<W> {
    /// The bytes that were written and not yet read.
    pub unread: Seq<u8>,
    /// How many more bytes fit behind them.
    pub room: int,
    pub write_end_closed: bool,
    pub read_end_closed: bool,
    /// Who waits for bytes.
    pub read_waker: Option<W>,
    /// Who waits for room.
    pub write_waker: Option<W>,
}

/// What a write does: the state after it, its result, and who is woken.
pub struct Write<W> {
    pub state: State<W>,
    pub poll: Poll<Result<usize, ReadEndClosed>>,
    pub wake: Option<W>,
}

/// What a read does: the state after it, the bytes that it gives, and who is
/// woken.
pub struct Read<W> {
    pub state: State<W>,
    pub poll: Poll<Seq<u8>>,
    pub wake: Option<W>,
}

/// The smaller of two lengths.
pub open spec fn min_len(a: int, b: int) -> int {
    if a <= b {
        a
    } else {
        b
    }
}

impl<W> State<W> {
    /// The state of a new channel.
    pub open spec fn initial() -> State<W> {
        State {
            unread: Seq::empty(),
            room: BUFFER_LEN as int,
            write_end_closed: false,
            read_end_closed: false,
            read_waker: None,
            write_waker: None,
        }
    }

    /// The unread bytes and the room behind them fit into the buffer.
    pub open spec fn wf(self) -> bool {
        0 <= self.room && self.unread.len() + self.room <= BUFFER_LEN
    }

    /// Whether a write has to wait: the buffer is filled to its end, and not
    /// emptied to its end.
    pub open spec fn write_waits(self) -> bool {
        !self.read_end_closed && self.room == 0 && self.unread.len() > 0
    }

    /// Whether a read has to wait: nothing is unread, and more may come.
    pub open spec fn read_waits(self) -> bool {
        self.unread.len() == 0 && !self.write_end_closed
    }

    /// The room that a write finds: all of the buffer, once it is filled to its
    /// end and emptied to its end.
    pub open spec fn write_room(self) -> int {
        if self.room == 0 && self.unread.len() == 0 {
            BUFFER_LEN as int
        } else {
            self.room
        }
    }

    /// Writes as much of `buf` as there is room for.
    pub open spec fn write(self, waker: W, buf: Seq<u8>) -> Write<W> {
        if self.read_end_closed {
            Write { state: self, poll: Poll::Ready(Err(ReadEndClosed)), wake: None }
        } else if self.write_waits() {
            Write {
                state: State { write_waker: Some(waker), ..self },
                poll: Poll::Pending,
                wake: None,
            }
        } else {
            let n = min_len(buf.len() as int, self.write_room());
            Write {
                state: State {
                    unread: self.unread + buf.take(n),
                    room: self.write_room() - n,
                    read_waker: None,
                    ..self
                },
                poll: Poll::Ready(Ok(n as usize)),
                wake: self.read_waker,
            }
        }
    }

    /// Reads up to `remaining` of the unread bytes, the oldest first.
    pub open spec fn read(self, waker: W, remaining: int) -> Read<W> {
        if self.read_waits() {
            Read {
                state: State { read_waker: Some(waker), ..self },
                poll: Poll::Pending,
                wake: None,
            }
        } else if self.unread.len() == 0 {
            Read { state: self, poll: Poll::Ready(Seq::empty()), wake: None }
        } else {
            let n = min_len(remaining, self.unread.len() as int);
            Read {
                state: State { unread: self.unread.skip(n), write_waker: None, ..self },
                poll: Poll::Ready(self.unread.take(n)),
                wake: self.write_waker,
            }
        }
    }

    /// Closes the sender's end.
    pub open spec fn close_write(self) -> State<W> {
        State { write_end_closed: true, read_waker: None, ..self }
    }

    /// Closes the receiver's end.
    pub open spec fn close_read(self) -> State<W> {
        State { read_end_closed: true, write_waker: None, ..self }
    }
}

impl<W> View for Inner<W> {
    type V = State<W>;

    closed spec fn view(&self) -> State<W> {
        State {
            unread: self.buffer@.subrange(self.read_cursor as int, self.write_cursor as int),
            room: self.buffer@.len() - self.write_cursor,
            write_end_closed: self.write_end_closed,
            read_end_closed: self.read_end_closed,
            read_waker: self.read_waker,
            write_waker: self.write_waker,
        }
    }
}

impl<W> Inner<W> {
    /// The cursors lie inside the buffer, the reader's not after the writer's.
    pub closed spec fn wf(self) -> bool {
        &&& self.buffer@.len() == BUFFER_LEN
        &&& self.read_cursor <= self.write_cursor <= self.buffer@.len()
    }

    /// A channel whose cursors lie inside the buffer has a state that fits into
    /// it.
    pub proof fn lemma_state_fits(self)
        requires
            self.wf(),
        ensures
            self@.wf(),
    {
    }

    /// An empty channel with both ends open.
    fn new() -> (r: Self)
        ensures
            r.wf(),
            r@ == State::<W>::initial(),
    {
        let r = Inner {
            buffer: vec![0;BUFFER_LEN],
            write_cursor: 0,
            read_cursor: 0,
            write_end_closed: false,
            read_end_closed: false,
            read_waker: None,
            write_waker: None,
        };
        assert(r@ =~= State::<W>::initial());
        r
    }

    /// Appends up to `remaining` unread bytes to `buf`. The second result is
    /// whom to wake.
    fn poll_read(&mut self, waker: W, buf: &mut Vec<u8>, remaining: usize) -> (r: (
        Poll<()>,
        Option<W>,
    ))
        requires
            old(self).wf(),
        ensures
            final(self).wf(),
            ({
                let step = old(self)@.read(waker, remaining as int);
                &&& final(self)@ == step.state
                &&& r.1 == step.wake
                &&& match step.poll {
                    Poll::Pending => r.0 == Poll::<()>::Pending && final(buf)@ == old(buf)@,
                    Poll::Ready(bytes) => r.0 == Poll::Ready(()) && final(buf)@ == old(buf)@ + bytes,
                }
            }),
    {
        let ghost before = self@;
        if self.read_cursor == self.write_cursor {
            if self.write_end_closed {
                assert(buf@ =~= old(buf)@ + Seq::<u8>::empty());
                (Poll::Ready(()), None)
            } else {
                self.read_waker = Some(waker);
                (Poll::Pending, None)
            }
        } else {
            let unread: usize = self.write_cursor - self.read_cursor;
            let copy_len: usize = if remaining <= unread {
                remaining
            } else {
                unread
            };
            let mut i: usize = 0;
            while i < copy_len
                invariant
                    0 <= i <= copy_len,
                    copy_len <= before.unread.len(),
                    self.read_cursor + copy_len <= self.write_cursor <= self.buffer@.len(),
                    before.unread == self.buffer@.subrange(
                        self.read_cursor as int,
                        self.write_cursor as int,
                    ),
                    buf@ == old(buf)@ + before.unread.take(i as int),
                decreases copy_len - i,
            {
                buf.push(self.buffer[self.read_cursor + i]);
                assert(before.unread.take(i + 1) =~= before.unread.take(i as int).push(
                    before.unread[i as int],
                ));
                i += 1;
            }
            self.read_cursor = self.read_cursor + copy_len;
            let wake = self.write_waker.take();
            assert(self@.unread =~= before.unread.skip(copy_len as int));
            (Poll::Ready(()), wake)
        }
    }

    /// Takes as many bytes of `buf` as there is room for. The second result is
    /// whom to wake.
    fn poll_write(&mut self, waker: W, buf: &[u8]) -> (r: (
        Poll<Result<usize, ReadEndClosed>>,
        Option<W>,
    ))
        requires
            old(self).wf(),
        ensures
            final(self).wf(),
            ({
                let step = old(self)@.write(waker, buf@);
                &&& final(self)@ == step.state
                &&& r == (step.poll, step.wake)
            }),
    {
        let ghost before = self@;
        if self.read_end_closed {
            return (Poll::Ready(Err(ReadEndClosed)), None);
        }
        if self.write_cursor == self.buffer.len() {
            if self.read_cursor == self.buffer.len() {
                self.write_cursor = 0;
                self.read_cursor = 0;
            } else {
                self.write_waker = Some(waker);
                return (Poll::Pending, None);
            }
        }
        assert(self@.unread =~= before.unread);
        let ghost unread = self@.unread;
        let room: usize = self.buffer.len() - self.write_cursor;
        let copy_len: usize = if buf.len() <= room {
            buf.len()
        } else {
            room
        };
        let mut i: usize = 0;
        while i < copy_len
            invariant
                0 <= i <= copy_len <= buf@.len(),
                self.buffer@.len() == BUFFER_LEN,
                self.read_cursor <= self.write_cursor,
                self.write_cursor + copy_len <= BUFFER_LEN,
                BUFFER_LEN - self.write_cursor == before.write_room(),
                self.write_end_closed == before.write_end_closed,
                self.read_end_closed == before.read_end_closed,
                self.read_waker == before.read_waker,
                self.write_waker == before.write_waker,
                unread.len() == self.write_cursor - self.read_cursor,
                self.buffer@.subrange(self.read_cursor as int, self.write_cursor + i) == unread
                    + buf@.take(i as int),
            decreases copy_len - i,
        {
            let ghost filled = self.buffer@.subrange(
                self.read_cursor as int,
                self.write_cursor + i,
            );
            self.buffer.set(self.write_cursor + i, buf[i]);
            assert(self.buffer@.subrange(self.read_cursor as int, self.write_cursor + i + 1)
                =~= filled.push(buf@[i as int]));
            assert(buf@.take(i + 1) =~= buf@.take(i as int).push(buf@[i as int]));
            i += 1;
        }
        self.write_cursor = self.write_cursor + copy_len;
        let wake = self.read_waker.take();
        assert(copy_len == min_len(buf@.len() as int, before.write_room()));
        assert(self@.unread =~= before.unread + buf@.take(copy_len as int));
        (Poll::Ready(Ok(copy_len)), wake)
    }

    /// Closes the sender's end. The result is whom to wake.
    fn close_write(&mut self) -> (r: Option<W>)
        requires
            old(self).wf(),
        ensures
            final(self).wf(),
            final(self)@ == old(self)@.close_write(),
            r == old(self)@.read_waker,
    {
        self.write_end_closed = true;
        self.read_waker.take()
    }

    /// Closes the receiver's end. The result is whom to wake.
    fn close_read(&mut self) -> (r: Option<W>)
        requires
            old(self).wf(),
        ensures
            final(self).wf(),
            final(self)@ == old(self)@.close_read(),
            r == old(self)@.write_waker,
    {
        self.read_end_closed = true;
        self.write_waker.take()
    }
}

/// The end of a channel that bytes are written to. The channel's state is kept
/// by whoever runs the channel, who hands it to each operation.
pub struct Sender {
    _private: (),
}

/// The end of a channel that bytes are read from. The channel's state is kept by
/// whoever runs the channel, who hands it to each operation.
pub struct Receiver {
    _private: (),
}

impl Sender {
    /// Takes as many bytes of `buf` as there is room for. The second result is
    /// whom to wake.
    pub fn poll_write<W>(&self, inner: &mut Inner<W>, waker: W, buf: &[u8]) -> (r: (
        Poll<Result<usize, ReadEndClosed>>,
        Option<W>,
    ))
        requires
            old(inner).wf(),
        ensures
            final(inner).wf(),
            ({
                let step = old(inner)@.write(waker, buf@);
                &&& final(inner)@ == step.state
                &&& r == (step.poll, step.wake)
            }),
    {
        inner.poll_write(waker, buf)
    }

    /// Nothing is ever held back.
    pub fn poll_flush<W>(&self, inner: &mut Inner<W>) -> (r: Poll<()>)
        ensures
            *final(inner) == *old(inner),
            r == Poll::Ready(()),
    {
        Poll::Ready(())
    }

    /// Closes the sender's end. The second result is whom to wake.
    pub fn poll_shutdown<W>(&self, inner: &mut Inner<W>) -> (r: (Poll<()>, Option<W>))
        requires
            old(inner).wf(),
        ensures
            final(inner).wf(),
            final(inner)@ == old(inner)@.close_write(),
            r == (Poll::Ready(()), old(inner)@.read_waker),
    {
        let wake = inner.close_write();
        (Poll::Ready(()), wake)
    }

    /// Gives the sender's end up, which closes it. The result is whom to wake.
    pub fn drop<W>(self, inner: &mut Inner<W>) -> (r: Option<W>)
        requires
            old(inner).wf(),
        ensures
            final(inner).wf(),
            final(inner)@ == old(inner)@.close_write(),
            r == old(inner)@.read_waker,
    {
        inner.close_write()
    }
}

impl Receiver {
    /// Appends up to `remaining` unread bytes to `buf`. The second result is
    /// whom to wake.
    pub fn poll_read<W>(
        &self,
        inner: &mut Inner<W>,
        waker: W,
        buf: &mut Vec<u8>,
        remaining: usize,
    ) -> (r: (Poll<()>, Option<W>))
        requires
            old(inner).wf(),
        ensures
            final(inner).wf(),
            ({
                let step = old(inner)@.read(waker, remaining as int);
                &&& final(inner)@ == step.state
                &&& r.1 == step.wake
                &&& match step.poll {
                    Poll::Pending => r.0 == Poll::<()>::Pending && final(buf)@ == old(buf)@,
                    Poll::Ready(bytes) => r.0 == Poll::Ready(()) && final(buf)@ == old(buf)@ + bytes,
                }
            }),
    {
        inner.poll_read(waker, buf, remaining)
    }

    /// Gives the receiver's end up, which closes it. The result is whom to wake.
    pub fn drop<W>(self, inner: &mut Inner<W>) -> (r: Option<W>)
        requires
            old(inner).wf(),
        ensures
            final(inner).wf(),
            final(inner)@ == old(inner)@.close_read(),
            r == old(inner)@.write_waker,
    {
        inner.close_read()
    }
}

/// A new channel: its two ends, and its state.
pub fn channel<W>() -> (r: (Sender, Receiver, Inner<W>))
    ensures
        r.2.wf(),
        r.2@ == State::<W>::initial(),
{
    (Sender { _private: () }, Receiver { _private: () }, Inner::new())
}

/// Something that happens to a channel.
pub enum Event<W> {
    Write { waker: W, buf: Seq<u8> },
    Read { waker: W, remaining: nat },
    CloseWrite,
    CloseRead,
}

/// A channel's state, and all bytes that went in and came out so far.
pub struct History<W> {
    pub state: State<W>,
    pub accepted: Seq<u8>,
    pub given: Seq<u8>,
}

impl<W> History<W> {
    /// The history after one more event.
    pub open spec fn after(self, event: Event<W>) -> History<W> {
        match event {
            Event::Write { waker, buf } => {
                let step = self.state.write(waker, buf);
                History {
                    state: step.state,
                    accepted: match step.poll {
                        Poll::Ready(Ok(n)) => self.accepted + buf.take(n as int),
                        _ => self.accepted,
                    },
                    given: self.given,
                }
            },
            Event::Read { waker, remaining } => {
                let step = self.state.read(waker, remaining as int);
                History {
                    state: step.state,
                    accepted: self.accepted,
                    given: match step.poll {
                        Poll::Ready(bytes) => self.given + bytes,
                        Poll::Pending => self.given,
                    },
                }
            },
            Event::CloseWrite => History { state: self.state.close_write(), ..self },
            Event::CloseRead => History { state: self.state.close_read(), ..self },
        }
    }
}

/// The history of a channel to which the given events happened.
pub open spec fn history<W>(events: Seq<Event<W>>) -> History<W>
    decreases events.len(),
{
    if events.len() == 0 {
        History { state: State::initial(), accepted: Seq::empty(), given: Seq::empty() }
    } else {
        history(events.drop_last()).after(events.last())
    }
}

/// Whatever happens to a channel, the bytes that came out, followed by those
/// that are unread, are the bytes that went in: none is lost, doubled, changed
/// or moved. And the channel never outgrows its buffer.
pub proof fn law_bytes_keep_order<W>(events: Seq<Event<W>>)
    ensures
        history(events).state.wf(),
        history(events).accepted == history(events).given + history(events).state.unread,
    decreases events.len(),
{
    if events.len() > 0 {
        law_bytes_keep_order(events.drop_last());
        let before = history(events.drop_last());
        let after = history(events);
        match events.last() {
            Event::Write { waker, buf } => {
                assert(after.accepted =~= after.given + after.state.unread);
            },
            Event::Read { waker, remaining } => {
                assert(after.accepted =~= after.given + after.state.unread);
            },
            Event::CloseWrite => {},
            Event::CloseRead => {},
        }
    }
}

/// A reader that gets no bytes though it has room for some has got all bytes
/// that were ever written, and the sender's end is closed.
pub proof fn law_end_of_stream<W>(events: Seq<Event<W>>, waker: W, remaining: nat)
    requires
        remaining > 0,
        history(events).state.read(waker, remaining as int).poll == Poll::Ready(Seq::<u8>::empty()),
    ensures
        history(events).given == history(events).accepted,
        history(events).state.write_end_closed,
{
    law_bytes_keep_order(events);
    let s = history(events).state;
    if s.unread.len() > 0 {
        let n = min_len(remaining as int, s.unread.len() as int);
        assert(s.unread.take(n).len() == n);
        assert(false);
    }
    assert(history(events).given =~= history(events).accepted);
}

/// Once the sender's end is closed and every byte is read, reads end at once and
/// give nothing, however many there are.
pub proof fn law_stream_stays_ended<W>(s: State<W>, waker: W, remaining: nat)
    requires
        s.write_end_closed,
        s.unread.len() == 0,
    ensures
        s.read(waker, remaining as int).poll == Poll::Ready(Seq::<u8>::empty()),
        s.read(waker, remaining as int).state == s,
{
}

/// A byte that is written into an open, empty channel can be read at once, and
/// a read gives back what was written.
pub proof fn law_read_gives_back_write<W>(s: State<W>, w1: W, w2: W, buf: Seq<u8>, remaining: nat)
    requires
        s.wf(),
        s.unread.len() == 0,
        !s.read_end_closed,
        0 < buf.len() <= s.write_room(),
        buf.len() <= remaining,
    ensures
        s.write(w1, buf).poll == Poll::Ready(Ok::<usize, ReadEndClosed>(buf.len() as usize)),
        s.write(w1, buf).state.read(w2, remaining as int).poll == Poll::Ready(buf),
{
    let after = s.write(w1, buf).state;
    assert(after.unread =~= buf);
    assert(after.unread.take(buf.len() as int) =~= buf);
}

/// A write after the receiver's end is closed fails, and changes nothing.
pub proof fn law_write_after_close_fails<W>(s: State<W>, waker: W, buf: Seq<u8>)
    ensures
        s.close_read().write(waker, buf).poll == Poll::Ready(Err::<usize, ReadEndClosed>(ReadEndClosed)),
        s.close_read().write(waker, buf).state == s.close_read(),
{
}

/// The two ends never wait for each other: where a write has to wait, a read
/// gives bytes; where a read has to wait, a write takes bytes.
pub proof fn law_no_deadlock<W>(s: State<W>, waker: W, buf: Seq<u8>, remaining: nat)
    requires
        s.wf(),
        buf.len() > 0,
        remaining > 0,
    ensures
        s.write_waits() ==> (s.read(waker, remaining as int).poll matches Poll::Ready(bytes)
            && bytes.len() > 0),
        s.read_waits() && !s.read_end_closed ==> (s.write(waker, buf).poll matches Poll::Ready(Ok(n))
            && n > 0),
{
}

/// Whoever waits to read is woken by the write that ends the wait, and is the
/// one whom closing the sender's end wakes.
pub proof fn law_reader_is_woken<W>(s: State<W>, reader: W, waker: W, buf: Seq<u8>)
    requires
        s.read_waits(),
    ensures
        ({
            let waiting = s.read(reader, 1).state;
            let write = waiting.write(waker, buf);
            &&& !write.state.read_waits() ==> write.wake == Some(reader)
            &&& waiting.read_waker == Some(reader)
        }),
{
}

/// Whoever waits to write is woken by every read that gives bytes, so by the
/// one that ends the wait.
pub proof fn law_writer_is_woken<W>(s: State<W>, writer: W, waker: W, buf: Seq<u8>, remaining: nat)
    requires
        s.wf(),
        s.write_waits(),
    ensures
        ({
            let waiting = s.write(writer, buf).state;
            &&& waiting.write_waker == Some(writer)
            &&& waiting.read(waker, remaining as int).wake == Some(writer)
        }),
{
}

/// A new channel is open at both ends, holds nothing, nobody waits at it, and there
/// is room for 8096 bytes.
pub proof fn law_new_channel<W>()
    ensures
        State::<W>::initial().unread.len() == 0,
        State::<W>::initial().room == 8096,
        !State::<W>::initial().write_end_closed,
        !State::<W>::initial().read_end_closed,
        State::<W>::initial().read_waker is None,
        State::<W>::initial().write_waker is None,
{
}

/// A write into an open channel with room takes as many bytes as there is room for,
/// whether or not bytes are unread: all of them where they fit. A buffer that was
/// filled to its end and emptied to its end has all of its room again.
pub proof fn law_write_takes_what_fits<W>(s: State<W>, waker: W, buf: Seq<u8>)
    requires
        0 <= s.room,
        s.unread.len() + s.room <= 8096,
        !s.read_end_closed,
        s.room > 0 || s.unread.len() == 0,
    ensures
        ({
            let room = if s.room > 0 {
                s.room
            } else {
                8096
            };
            let write = s.write(waker, buf);
            &&& write.poll matches Poll::Ready(Ok(n))
            &&& n <= buf.len()
            &&& n <= room
            &&& n == buf.len() || n == room
            &&& buf.len() > 0 ==> n > 0
            // The bytes that it took stand behind those that were unread.
            &&& write.state.unread == s.unread + buf.subrange(0, n as int)
            &&& write.state.room == room - n
            // Whoever waits for bytes is woken, and everything else stays.
            &&& write.wake == s.read_waker
            &&& write.state.read_waker is None
            &&& write.state.write_waker == s.write_waker
            &&& write.state.write_end_closed == s.write_end_closed
            &&& !write.state.read_end_closed
        }),
{
    let n = s.write(waker, buf).poll->Ready_0->Ok_0;
    assert(buf.take(n as int) =~= buf.subrange(0, n as int));
}

/// A write waits just where the channel is open, without room, and holds unread
/// bytes. It then changes only who waits for room.
pub proof fn law_write_waits_for_room<W>(s: State<W>, waker: W, buf: Seq<u8>)
    ensures
        s.write(waker, buf).poll is Pending <==> !s.read_end_closed && s.room == 0 && s.unread.len()
            > 0,
        s.write(waker, buf).poll is Pending ==> {
            let write = s.write(waker, buf);
            &&& write.wake is None
            &&& write.state.write_waker == Some(waker)
            &&& write.state.unread == s.unread
            &&& write.state.room == s.room
            &&& write.state.read_waker == s.read_waker
            &&& write.state.write_end_closed == s.write_end_closed
            &&& write.state.read_end_closed == s.read_end_closed
        },
{
}

/// A write fails just where the receiver's end is closed. It then changes nothing
/// and wakes nobody.
pub proof fn law_write_fails_once_closed<W>(s: State<W>, waker: W, buf: Seq<u8>)
    ensures
        (s.write(waker, buf).poll matches Poll::Ready(Err(_))) <==> s.read_end_closed,
        s.read_end_closed ==> s.write(waker, buf).state == s && s.write(waker, buf).wake is None,
{
}

/// A read of a channel with unread bytes gives the oldest of them, as many as the
/// reader has room for, and leaves the rest in their order; also after the sender's
/// end is closed.
pub proof fn law_read_gives_the_oldest<W>(s: State<W>, waker: W, remaining: nat)
    requires
        s.unread.len() > 0,
    ensures
        ({
            let read = s.read(waker, remaining as int);
            &&& read.poll matches Poll::Ready(bytes)
            &&& bytes.len() <= remaining
            &&& bytes.len() == remaining || bytes.len() == s.unread.len()
            &&& s.unread == bytes + read.state.unread
            // Whoever waits for room is woken, and everything else stays.
            &&& read.wake == s.write_waker
            &&& read.state.write_waker is None
            &&& read.state.read_waker == s.read_waker
            &&& read.state.room == s.room
            &&& read.state.write_end_closed == s.write_end_closed
            &&& read.state.read_end_closed == s.read_end_closed
        }),
{
    let read = s.read(waker, remaining as int);
    let n = read.poll->Ready_0.len() as int;
    assert(s.unread =~= s.unread.take(n) + s.unread.skip(n));
}

/// A read waits just where nothing is unread and the sender's end is open. It then
/// changes only who waits for bytes. Where that end is closed it gives nothing, and
/// changes nothing.
pub proof fn law_read_waits_for_bytes<W>(s: State<W>, waker: W, remaining: nat)
    ensures
        s.read(waker, remaining as int).poll is Pending <==> s.unread.len() == 0
            && !s.write_end_closed,
        s.read(waker, remaining as int).poll is Pending ==> {
            let read = s.read(waker, remaining as int);
            &&& read.wake is None
            &&& read.state.read_waker == Some(waker)
            &&& read.state.unread == s.unread
            &&& read.state.room == s.room
            &&& read.state.write_waker == s.write_waker
            &&& read.state.write_end_closed == s.write_end_closed
            &&& read.state.read_end_closed == s.read_end_closed
        },
        s.unread.len() == 0 && s.write_end_closed ==> {
            let read = s.read(waker, remaining as int);
            &&& read.poll matches Poll::Ready(bytes)
            &&& bytes.len() == 0
            &&& read.wake is None
            &&& read.state == s
        },
{
}

/// Closing an end closes that end for good, and takes who waits at the other one;
/// what was written and not read stays.
pub proof fn law_closing<W>(s: State<W>)
    ensures
        s.close_write().write_end_closed,
        s.close_write().read_end_closed == s.read_end_closed,
        s.close_write().unread == s.unread,
        s.close_write().room == s.room,
        s.close_write().read_waker is None,
        s.close_write().write_waker == s.write_waker,
        s.close_read().read_end_closed,
        s.close_read().write_end_closed == s.write_end_closed,
        s.close_read().unread == s.unread,
        s.close_read().room == s.room,
        s.close_read().write_waker is None,
        s.close_read().read_waker == s.read_waker,
{
}

/// Two writes that fit, one after the other, are one write of both.
pub proof fn law_writes_compose<W>(s: State<W>, w1: W, w2: W, first: Seq<u8>, second: Seq<u8>)
    requires
        0 <= s.room,
        s.unread.len() + s.room <= 8096,
        !s.read_end_closed,
        0 < first.len(),
        first.len() + second.len() <= s.room,
        second.len() > 0 || first.len() < s.room,
    ensures
        s.write(w1, first).state.write(w2, second).state.unread == s.write(
            w1,
            first + second,
        ).state.unread,
        s.write(w1, first).state.write(w2, second).state.room == s.write(
            w1,
            first + second,
        ).state.room,
        s.write(w1, first).poll == Poll::Ready(Ok::<usize, ReadEndClosed>(first.len() as usize)),
        s.write(w1, first).state.write(w2, second).poll == Poll::Ready(
            Ok::<usize, ReadEndClosed>(second.len() as usize),
        ),
{
    law_write_takes_what_fits(s, w1, first);
    law_write_takes_what_fits(s, w1, first + second);
    let middle = s.write(w1, first).state;
    law_write_takes_what_fits(middle, w2, second);
    assert(first.subrange(0, first.len() as int) =~= first);
    assert(second.subrange(0, second.len() as int) =~= second);
    assert((first + second).subrange(0, (first + second).len() as int) =~= first + second);
    assert(s.unread + first + second =~= s.unread + (first + second));
}

/// Two reads, one after the other, give what one read of both sizes gives.
pub proof fn law_reads_compose<W>(s: State<W>, w1: W, w2: W, first: nat, second: nat)
    requires
        first < s.unread.len(),
    ensures
        s.read(w1, (first + second) as int).poll == Poll::Ready(
            s.read(w1, first as int).poll->Ready_0 + s.read(w1, first as int).state.read(
                w2,
                second as int,
            ).poll->Ready_0,
        ),
        s.read(w1, (first + second) as int).state.unread == s.read(
            w1,
            first as int,
        ).state.read(w2, second as int).state.unread,
{
    law_read_gives_the_oldest(s, w1, first);
    law_read_gives_the_oldest(s, w1, first + second);
    let middle = s.read(w1, first as int).state;
    assert(s.unread.len() == first + middle.unread.len());
    law_read_gives_the_oldest(middle, w2, second);
    let a = s.read(w1, first as int).poll->Ready_0;
    let b = middle.read(w2, second as int).poll->Ready_0;
    let rest = middle.read(w2, second as int).state.unread;
    let both = s.read(w1, (first + second) as int).poll->Ready_0;
    let left = s.read(w1, (first + second) as int).state.unread;
    assert(s.unread == a + (b + rest));
    assert(s.unread == both + left);
    assert(both.len() == a.len() + b.len());
    assert(both =~= s.unread.take(both.len() as int));
    assert(a + b =~= s.unread.take(both.len() as int));
    assert(left =~= s.unread.skip(both.len() as int));
    assert(rest =~= s.unread.skip(both.len() as int));
}

} // verus!
