//! The blocking byte stream between one writer and one reader.
//!
//! [`StreamBuffer`] is the state of the stream and the sequential rules that
//! govern it; its view, [`StreamModel`], is the mathematical model those rules
//! are stated over. [`IoStream`] shares one `StreamBuffer` between the two
//! endpoints behind a mutex and a condition variable.
use std::collections::VecDeque;
use std::sync::Arc;
use std::sync::Condvar;
use std::sync::Mutex;
use std::sync::MutexGuard;
use vstd::prelude::*;

verus! {

pub type InputResult<T> = Result<T, InputError>;

pub type OutputResult<T> = Result<T, OutputError>;

/// Why a read could not be served. The two `Unexpected` variants carry the
/// number of bytes that were queued when the read gave up.
#[derive(Debug, Clone, Copy, PartialEq, Eq, Structural)]
pub enum InputError {
    StreamClosed,
    UnexpectedSigAbort(usize),
    UnexpectedEof(usize),
}

/// Why a write was refused.
#[derive(Debug, Clone, Copy, PartialEq, Eq, Structural)]
pub enum OutputError {
    ReaderAborted,
    EofWritten,
}

/// The smaller of two numbers.
pub open spec fn min_int(a: int, b: int) -> int {
    if a <= b {
        a
    } else {
        b
    }
}

pub(crate) fn min_usize(a: usize, b: usize) -> (m: usize)
    ensures
        m == min_int(a as int, b as int),
{
    if a <= b {
        a
    } else {
        b
    }
}

/// The stream as a value: the queued bytes and the lifecycle flags.
pub struct StreamModel {
    pub queue: Seq<u8>,
    pub target_len: nat,
    pub eof_written: bool,
    pub aborted: bool,
    pub reader_closed: bool,
}

impl StreamModel {
    /// A stream as it is made: nothing queued, no flag set.
    pub open spec fn initial() -> StreamModel {
        StreamModel {
            queue: Seq::empty(),
            target_len: 0,
            eof_written: false,
            aborted: false,
            reader_closed: false,
        }
    }

    /// A closed stream has been aborted.
    pub open spec fn wf(self) -> bool {
        self.reader_closed ==> self.aborted
    }

    /// Whether the data has ended and nothing is queued.
    pub open spec fn is_eof(self) -> bool {
        self.queue.len() == 0 && self.eof_written
    }

    /// The verdict on a reader that is about to take bytes. `require_active`
    /// is set when the reader would have to wait for more bytes.
    pub open spec fn validate_for_read(self, require_active: bool) -> InputResult<()> {
        if self.reader_closed {
            Err(InputError::StreamClosed)
        } else if (self.queue.len() == 0 || require_active) && self.aborted {
            Err(InputError::UnexpectedSigAbort(self.queue.len() as usize))
        } else if (self.queue.len() == 0 || require_active) && self.eof_written {
            Err(InputError::UnexpectedEof(self.queue.len() as usize))
        } else {
            Ok(())
        }
    }

    /// The verdict on a writer: an abort counts before the end of the data.
    pub open spec fn validate_for_write(self) -> OutputResult<()> {
        if self.aborted {
            Err(OutputError::ReaderAborted)
        } else if self.eof_written {
            Err(OutputError::EofWritten)
        } else {
            Ok(())
        }
    }

    /// The number of bytes that a read into `buf_len` bytes of room yields.
    pub open spec fn read_len(self, buf_len: nat) -> nat {
        min_int(buf_len as int, self.queue.len() as int) as nat
    }

    /// The stream after the reader dropped `len` bytes (or all, if fewer are queued).
    pub open spec fn consume(self, len: nat) -> StreamModel {
        StreamModel { queue: self.queue.skip(self.read_len(len) as int), ..self }
    }

    /// The stream after the writer offered `bytes`.
    pub open spec fn write(self, bytes: Seq<u8>) -> StreamModel {
        if self.validate_for_write() is Ok {
            StreamModel { queue: self.queue + bytes, ..self }
        } else {
            self
        }
    }

    /// The stream after the writer marked the end of the data.
    pub open spec fn write_eof(self) -> StreamModel {
        if self.validate_for_write() is Ok {
            StreamModel { eof_written: true, ..self }
        } else {
            self
        }
    }

    /// The stream after the reader aborted.
    pub open spec fn abort(self) -> StreamModel {
        StreamModel { aborted: true, ..self }
    }

    /// The stream after the reader closed it: closing aborts.
    pub open spec fn close(self) -> StreamModel {
        StreamModel { aborted: true, reader_closed: true, ..self }
    }

    /// Whether the writer may recover the queue.
    pub open spec fn has_unread_data(self) -> bool {
        self.reader_closed && self.queue.len() > 0
    }

    /// The stream after the writer took the bytes that the reader left.
    pub open spec fn take_unread_data(self) -> StreamModel {
        if self.has_unread_data() {
            StreamModel { queue: Seq::empty(), ..self }
        } else {
            self
        }
    }

    /// What a reader that asks for `min_len` bytes gets when it need not, or
    /// cannot, sleep any longer, with room for `room` bytes: as many bytes
    /// as fit, or else the verdict on a reader that would have to wait; a
    /// reader that was woken for nothing gets the answer of an abort.
    pub open spec fn served(self, min_len: nat, room: nat) -> InputResult<nat> {
        if self.queue.len() < min_len {
            match self.validate_for_read(true) {
                Err(e) => Err(e),
                Ok(_) => Err(InputError::UnexpectedSigAbort(self.queue.len() as usize)),
            }
        } else {
            Ok(self.read_len(room))
        }
    }

    /// Whether a reader that asks for `min_len` bytes has to sleep: too few
    /// bytes are queued and the stream can still deliver more.
    pub open spec fn must_wait(self, min_len: nat) -> bool {
        self.queue.len() < min_len && self.validate_for_read(true) is Ok
    }

    /// The stream as a reader leaves it after looking whether to sleep for
    /// `min_len` bytes: a sleeping reader publishes `target_len`.
    pub open spec fn park(self, min_len: nat, target_len: nat) -> StreamModel {
        StreamModel { target_len: if self.must_wait(min_len) { target_len } else { 0 }, ..self }
    }
}

/// One step in the life of a stream, taken by its writer or its reader.
pub enum StreamOp {
    /// The writer offers bytes.
    Write(Seq<u8>),
    /// The writer marks the end of the data.
    WriteEof,
    /// The reader takes up to so many bytes off the queue.
    Consume(nat),
    /// The reader aborts.
    Abort,
    /// The reader closes the stream.
    Close,
    /// The writer asks for the bytes that the reader left.
    TakeUnreadData,
}

/// A stream together with the account of its bytes: all that the writer got
/// accepted, all that the reader took, and all that the writer recovered.
pub struct StreamHistory {
    pub stream: StreamModel,
    pub written: Seq<u8>,
    pub read: Seq<u8>,
    pub recovered: Seq<u8>,
}

impl StreamHistory {
    /// The history of a stream as it is made.
    pub open spec fn initial() -> StreamHistory {
        StreamHistory {
            stream: StreamModel::initial(),
            written: Seq::empty(),
            read: Seq::empty(),
            recovered: Seq::empty(),
        }
    }

    /// The history after one more step. A write that the stream refuses, a
    /// read from a closed stream and a recovery from an open one change
    /// nothing.
    pub open spec fn step(self, op: StreamOp) -> StreamHistory {
        match op {
            StreamOp::Write(bytes) => if self.stream.validate_for_write() is Ok {
                StreamHistory {
                    stream: self.stream.write(bytes),
                    written: self.written + bytes,
                    ..self
                }
            } else {
                self
            },
            StreamOp::WriteEof => StreamHistory { stream: self.stream.write_eof(), ..self },
            StreamOp::Consume(len) => if self.stream.reader_closed {
                self
            } else {
                StreamHistory {
                    stream: self.stream.consume(len),
                    read: self.read + self.stream.queue.take(self.stream.read_len(len) as int),
                    ..self
                }
            },
            StreamOp::Abort => StreamHistory { stream: self.stream.abort(), ..self },
            StreamOp::Close => StreamHistory { stream: self.stream.close(), ..self },
            StreamOp::TakeUnreadData => if self.stream.has_unread_data() {
                StreamHistory {
                    stream: self.stream.take_unread_data(),
                    recovered: self.recovered + self.stream.queue,
                    ..self
                }
            } else {
                self
            },
        }
    }

    /// The history of a stream that has gone through `ops` since it was
    /// made.
    pub open spec fn after(ops: Seq<StreamOp>) -> StreamHistory
        decreases ops.len(),
    {
        if ops.len() == 0 {
            Self::initial()
        } else {
            Self::after(ops.drop_last()).step(ops.last())
        }
    }

    /// Whatever the two ends do, every byte that the writer got accepted is
    /// taken by the reader once, or recovered by the writer once, or still
    /// queued, in the order of writing; the writer recovers bytes only from
    /// a closed stream; and a closed stream has been aborted.
    pub proof fn law_every_byte_accounted_for(ops: Seq<StreamOp>)
        ensures
            Self::after(ops).written == Self::after(ops).read + Self::after(ops).recovered
                + Self::after(ops).stream.queue,
            Self::after(ops).recovered.len() > 0 ==> Self::after(ops).stream.reader_closed,
            Self::after(ops).stream.wf(),
        decreases ops.len(),
    {
        if ops.len() == 0 {
            let h = Self::initial();
            assert(h.written =~= h.read + h.recovered + h.stream.queue);
        } else {
            Self::law_every_byte_accounted_for(ops.drop_last());
            let pre = Self::after(ops.drop_last());
            let post = pre.step(ops.last());
            let queue = pre.stream.queue;
            match ops.last() {
                StreamOp::Write(bytes) => {
                    assert(post.written =~= post.read + post.recovered + post.stream.queue);
                },
                StreamOp::Consume(len) => {
                    if !pre.stream.reader_closed {
                        let n = pre.stream.read_len(len) as int;
                        assert(pre.recovered.len() == 0);
                        assert(queue =~= queue.take(n) + queue.skip(n));
                        assert(post.written =~= post.read + post.recovered + post.stream.queue);
                    }
                },
                StreamOp::TakeUnreadData => {
                    assert(post.written =~= post.read + post.recovered + post.stream.queue);
                },
                _ => {},
            }
        }
    }

    /// The end of the data, an abort and a close are for good: no step
    /// takes them back. And once the data has ended or the reader has
    /// aborted, the writer gets no more bytes accepted.
    pub proof fn law_flags_are_for_good(self, op: StreamOp)
        ensures
            self.stream.eof_written ==> self.step(op).stream.eof_written,
            self.stream.aborted ==> self.step(op).stream.aborted,
            self.stream.reader_closed ==> self.step(op).stream.reader_closed,
            self.stream.eof_written || self.stream.aborted ==> self.step(op).written
                == self.written,
    {
    }
}

/// The state of the stream: the bytes in flight and the lifecycle flags.
pub struct StreamBuffer {
    data: VecDeque<u8>,
    target_len: usize,
    eof_written: bool,
    aborted: bool,
    reader_closed: bool,
}

impl View for StreamBuffer {
    type V = StreamModel;

    closed spec fn view(&self) -> StreamModel {
        StreamModel {
            queue: self.data@,
            target_len: self.target_len as nat,
            eof_written: self.eof_written,
            aborted: self.aborted,
            reader_closed: self.reader_closed,
        }
    }
}

impl StreamBuffer {
    /// A stream with nothing queued and no flag set.
    pub fn new() -> (buffer: Self)
        ensures
            buffer@ == StreamModel::initial(),
    {
        StreamBuffer {
            data: VecDeque::new(),
            target_len: 0,
            eof_written: false,
            aborted: false,
            reader_closed: false,
        }
    }

    pub fn len(&self) -> (n: usize)
        ensures
            n == self@.queue.len(),
    {
        self.data.len()
    }

    pub fn is_empty(&self) -> (b: bool)
        ensures
            b == (self@.queue.len() == 0),
    {
        self.data.len() == 0
    }

    pub fn eof_written(&self) -> (b: bool)
        ensures
            b == self@.eof_written,
    {
        self.eof_written
    }

    pub fn is_aborted(&self) -> (b: bool)
        ensures
            b == self@.aborted,
    {
        self.aborted
    }

    pub fn is_closed(&self) -> (b: bool)
        ensures
            b == self@.reader_closed,
    {
        self.reader_closed
    }

    pub fn is_eof(&self) -> (b: bool)
        ensures
            b == self@.is_eof(),
    {
        self.data.len() == 0 && self.eof_written
    }

    /// Copies the front of the queue into the front of `buf`, as much as fits,
    /// and leaves the queue as it is.
    pub fn read(&self, buf: &mut [u8]) -> (read_len: usize)
        ensures
            read_len == self@.read_len(old(buf)@.len()),
            final(buf)@ == self@.queue.take(read_len as int) + old(buf)@.skip(read_len as int),
    {
        let read_len = min_usize(buf.len(), self.data.len());
        let mut i: usize = 0;
        while i < read_len
            invariant
                i <= read_len,
                read_len <= self.data@.len(),
                read_len <= buf@.len(),
                buf@.len() == old(buf)@.len(),
                buf@ =~= self.data@.take(i as int) + old(buf)@.skip(i as int),
            decreases read_len - i,
        {
            buf[i] = self.data[i];
            i += 1;
        }
        read_len
    }

    /// Drops `len` bytes from the front of the queue, or all of them if fewer
    /// are queued, and returns how many were dropped.
    pub fn consume(&mut self, len: usize) -> (n: usize)
        ensures
            n == old(self)@.read_len(len as nat),
            final(self)@ == old(self)@.consume(len as nat),
    {
        if len < self.data.len() {
            let mut i: usize = 0;
            while i < len
                invariant
                    i <= len,
                    len < old(self).data@.len(),
                    self.data@ =~= old(self).data@.skip(i as int),
                    self.target_len == old(self).target_len,
                    self.eof_written == old(self).eof_written,
                    self.aborted == old(self).aborted,
                    self.reader_closed == old(self).reader_closed,
                decreases len - i,
            {
                self.data.pop_front();
                i += 1;
            }
            len
        } else {
            let n = self.data.len();
            self.data.clear();
            assert(self.data@ =~= old(self).data@.skip(n as int));
            n
        }
    }

    /// The verdict on a reader that is about to take bytes.
    pub fn validate_for_read(&self, require_active: bool) -> (r: InputResult<()>)
        ensures
            r == self@.validate_for_read(require_active),
    {
        if self.reader_closed {
            return Err(InputError::StreamClosed);
        }
        if self.data.len() == 0 || require_active {
            if self.aborted {
                return Err(InputError::UnexpectedSigAbort(self.data.len()));
            } else if self.eof_written {
                return Err(InputError::UnexpectedEof(self.data.len()));
            }
        }
        Ok(())
    }

    /// The verdict on a writer that is about to offer bytes.
    pub fn validate_for_write(&self) -> (r: OutputResult<()>)
        ensures
            r == self@.validate_for_write(),
    {
        if self.aborted {
            Err(OutputError::ReaderAborted)
        } else if self.eof_written {
            Err(OutputError::EofWritten)
        } else {
            Ok(())
        }
    }

    /// Appends `buf` to the queue unless the stream refuses writes.
    pub fn write(&mut self, buf: &[u8]) -> (r: OutputResult<usize>)
        ensures
            match r {
                Ok(n) => n == buf@.len() && old(self)@.validate_for_write() is Ok,
                Err(e) => old(self)@.validate_for_write() == Err::<(), OutputError>(e),
            },
            final(self)@ == old(self)@.write(buf@),
    {
        match self.validate_for_write() {
            Ok(_) => {},
            Err(e) => {
                return Err(e);
            },
        }
        let mut i: usize = 0;
        while i < buf.len()
            invariant
                i <= buf@.len(),
                self.data@ =~= old(self).data@ + buf@.take(i as int),
                self.target_len == old(self).target_len,
                self.eof_written == old(self).eof_written,
                self.aborted == old(self).aborted,
                self.reader_closed == old(self).reader_closed,
            decreases buf@.len() - i,
        {
            self.data.push_back(buf[i]);
            i += 1;
        }
        assert(buf@.take(buf@.len() as int) =~= buf@);
        Ok(buf.len())
    }

    /// Marks the end of the data unless the stream refuses writes.
    pub fn write_eof(&mut self) -> (r: OutputResult<()>)
        ensures
            r == old(self)@.validate_for_write(),
            final(self)@ == old(self)@.write_eof(),
    {
        match self.validate_for_write() {
            Ok(_) => {},
            Err(e) => {
                return Err(e);
            },
        }
        self.eof_written = true;
        Ok(())
    }

    /// Marks the stream as aborted by the reader.
    pub fn abort(&mut self)
        ensures
            final(self)@ == old(self)@.abort(),
    {
        self.aborted = true;
    }

    /// Marks the stream as aborted and closed by the reader.
    pub fn close(&mut self)
        ensures
            final(self)@ == old(self)@.close(),
    {
        self.aborted = true;
        self.reader_closed = true;
    }

    /// Whether the bytes queued reach the count that a sleeping reader
    /// published, so that waking it is worth while.
    pub fn reached_target(&self) -> (b: bool)
        ensures
            b == (self@.queue.len() >= self@.target_len),
    {
        self.data.len() >= self.target_len
    }

    /// Hands the queue to the writer once the reader has closed the stream.
    pub fn take_unread_data(&mut self) -> (unread: Option<Vec<u8>>)
        ensures
            unread is Some == old(self)@.has_unread_data(),
            unread matches Some(bytes) ==> bytes@ == old(self)@.queue,
            final(self)@ == old(self)@.take_unread_data(),
    {
        if self.reader_closed && self.data.len() > 0 {
            let mut bytes: Vec<u8> = Vec::new();
            let n = self.data.len();
            let mut i: usize = 0;
            while i < n
                invariant
                    i <= n,
                    n == self.data@.len(),
                    self.data@ == old(self).data@,
                    bytes@ =~= self.data@.take(i as int),
                    self.target_len == old(self).target_len,
                    self.eof_written == old(self).eof_written,
                    self.aborted == old(self).aborted,
                    self.reader_closed == old(self).reader_closed,
                decreases n - i,
            {
                bytes.push(self.data[i]);
                i += 1;
            }
            assert(self.data@.take(n as int) =~= self.data@);
            self.data.clear();
            Some(bytes)
        } else {
            None
        }
    }

    /// Serves a reader that asks for `min_len` bytes and sleeps no longer:
    /// the front of the queue goes into the front of `buf`, as much as
    /// fits, and leaves the queue if `consume` is set. Where fewer than
    /// `min_len` bytes are queued nothing is served.
    pub fn serve(&mut self, buf: &mut [u8], min_len: usize, consume: bool) -> (r: InputResult<
        usize,
    >)
        ensures
            match old(self)@.served(min_len as nat, old(buf)@.len()) {
                Ok(n) => {
                    &&& r == Ok::<usize, InputError>(n as usize)
                    &&& final(buf)@ == old(self)@.queue.take(n as int) + old(buf)@.skip(n as int)
                    &&& final(self)@ == if consume {
                        old(self)@.consume(n)
                    } else {
                        old(self)@
                    }
                },
                Err(e) => r == Err::<usize, InputError>(e) && final(buf)@ == old(buf)@ && final(self)@ == old(self)@,
            },
    {
        if self.data.len() < min_len {
            return match self.validate_for_read(true) {
                Err(e) => Err(e),
                Ok(_) => Err(InputError::UnexpectedSigAbort(self.data.len())),
            };
        }
        let read_len = self.read(buf);
        if consume {
            self.consume(read_len);
        }
        Ok(read_len)
    }

    /// Drops `len` bytes for a reader that asked for them and sleeps no
    /// longer. Where fewer are queued nothing is dropped.
    pub fn discard(&mut self, len: usize) -> (r: InputResult<usize>)
        ensures
            match old(self)@.served(len as nat, len as nat) {
                Ok(_) => r == Ok::<usize, InputError>(len) && final(self)@ == old(self)@.consume(
                    len as nat,
                ),
                Err(e) => r == Err::<usize, InputError>(e) && final(self)@ == old(self)@,
            },
    {
        if self.data.len() < len {
            return match self.validate_for_read(true) {
                Err(e) => Err(e),
                Ok(_) => Err(InputError::UnexpectedSigAbort(self.data.len())),
            };
        }
        Ok(self.consume(len))
    }

    /// Decides whether a reader that needs `min_len` bytes goes to sleep, and
    /// publishes `target_len` for the writer if it does.
    pub fn park(&mut self, min_len: usize, target_len: usize) -> (wait: bool)
        ensures
            wait == old(self)@.must_wait(min_len as nat),
            final(self)@ == old(self)@.park(min_len as nat, target_len as nat),
    {
        let wait = self.data.len() < min_len && self.validate_for_read(true).is_ok();
        self.target_len = if wait {
            target_len
        } else {
            0
        };
        wait
    }

    /// The verdict on a writer that is about to wait for the reader to
    /// close the stream: it fails unless the reader has aborted.
    pub fn validate_for_close(&self) -> (r: Result<(), ()>)
        ensures
            r is Ok == self@.aborted,
    {
        if self.aborted {
            Ok(())
        } else {
            Err(())
        }
    }

    /// The answer to a writer that has waited for the reader to close the
    /// stream: it fails if the stream is still open.
    pub fn closed_verdict(&self) -> (r: Result<(), ()>)
        ensures
            r is Ok == self@.reader_closed,
    {
        if self.reader_closed {
            Ok(())
        } else {
            Err(())
        }
    }

    /// Whether the reader has not closed the stream yet.
    pub fn is_open(&self) -> (b: bool)
        ensures
            b == !self@.reader_closed,
    {
        !self.reader_closed
    }
}

/// `std::sync::Mutex`, of which nothing is known but that it is there.
#[verifier::external_type_specification]
#[verifier::external_body]
#[verifier::reject_recursive_types(T)]
pub struct ExMutex<T: ?Sized>(Mutex<T>);

/// `std::sync::MutexGuard`, of which nothing is known but that it is there.
#[verifier::external_type_specification]
#[verifier::external_body]
#[verifier::reject_recursive_types(T)]
pub struct ExMutexGuard<'a, T: ?Sized + 'a>(MutexGuard<'a, T>);

/// `std::sync::Condvar`, of which nothing is known but that it is there.
#[verifier::external_type_specification]
#[verifier::external_body]
pub struct ExCondvar(Condvar);

/// `Mutex::new`: a mutex around the value. Nothing is claimed of it.
pub assume_specification<T>[ Mutex::<T>::new ](t: T) -> Mutex<T>;

/// `Condvar::new`. Nothing is claimed of it.
pub assume_specification[ Condvar::new ]() -> Condvar;

/// `Condvar::notify_one`: wakes one sleeping thread, if there is one.
pub assume_specification[ Condvar::notify_one ](cv: &Condvar);

/// `Mutex::lock`. A lock that a panicking thread left poisoned is taken over:
/// every rule of `StreamBuffer` holds between any two of its steps. Nothing is
/// claimed of the buffer found; the other endpoint may have changed it.
#[verifier::external_body]
fn lock<'a>(mutex: &'a Mutex<StreamBuffer>) -> (guard: MutexGuard<'a, StreamBuffer>) {
    mutex.lock().unwrap_or_else(|poisoned| poisoned.into_inner())
}

/// `DerefMut::deref_mut` of `MutexGuard`: the buffer that the guard
/// protects. Nothing is claimed of the buffer.
#[verifier::external_body]
fn buffer_mut<'a, 'b>(guard: &'a mut MutexGuard<'b, StreamBuffer>) -> (buffer:
    &'a mut StreamBuffer) {
    std::ops::DerefMut::deref_mut(guard)
}

/// `Condvar::wait_while` with `StreamBuffer::park` as its condition: sleeps
/// until a reader in want of `min_len` bytes need not wait any longer. A
/// poisoned lock ends the sleep early, so nothing is claimed of the buffer
/// that comes back; the caller looks again.
#[verifier::external_body]
fn sleep_while_parked<'a>(
    cv: &Condvar,
    guard: MutexGuard<'a, StreamBuffer>,
    min_len: usize,
    target_len: usize,
) -> (woken: MutexGuard<'a, StreamBuffer>) {
    cv.wait_while(guard, |buffer| buffer.park(min_len, target_len)).unwrap_or_else(
        |poisoned| poisoned.into_inner(),
    )
}

/// `Condvar::wait_while` with `StreamBuffer::is_open` as its condition: sleeps
/// until the reader has closed the stream. A poisoned lock ends the sleep
/// early, so nothing is claimed of the buffer that comes back.
#[verifier::external_body]
fn sleep_while_open<'a>(cv: &Condvar, guard: MutexGuard<'a, StreamBuffer>) -> (woken: MutexGuard<
    'a,
    StreamBuffer,
>) {
    cv.wait_while(guard, |buffer| buffer.is_open()).unwrap_or_else(
        |poisoned| poisoned.into_inner(),
    )
}

/// One stream, shared by its writer and its reader. Each method takes the
/// lock, applies the rule of the same name in [`StreamBuffer`], and wakes the
/// other endpoint where the rule says so. What a method finds depends on what
/// the other endpoint has done, so its contract states what holds of every
/// answer.
pub struct IoStream {
    data: Mutex<StreamBuffer>,
    cv: Condvar,
}

impl Default for IoStream {
    fn default() -> Self {
        IoStream::new()
    }
}

/// What an answer of a read into `old_buf` that asked for `min_len` bytes
/// looks like, whatever the stream held.
pub open spec fn read_outcome(
    r: InputResult<usize>,
    old_buf: Seq<u8>,
    new_buf: Seq<u8>,
    min_len: nat,
) -> bool {
    &&& new_buf.len() == old_buf.len()
    &&& match r {
        Ok(n) => min_len <= n <= old_buf.len() && new_buf.skip(n as int) == old_buf.skip(n as int),
        Err(InputError::StreamClosed) => new_buf == old_buf,
        Err(InputError::UnexpectedSigAbort(queued)) => new_buf == old_buf && (queued == 0 || queued
            < min_len),
        Err(InputError::UnexpectedEof(queued)) => new_buf == old_buf && (queued == 0 || queued
            < min_len),
    }
}

// Methods shared by both endpoints
impl IoStream {
    /// A stream with nothing queued and no flag set.
    pub fn new() -> Self {
        IoStream { data: Mutex::new(StreamBuffer::new()), cv: Condvar::new() }
    }

    /// Whether nothing is queued at the time of the call.
    pub fn is_empty(&self) -> bool {
        let mut guard = lock(&self.data);
        buffer_mut(&mut guard).is_empty()
    }

    /// The number of bytes queued at the time of the call.
    pub fn len(&self) -> usize {
        let mut guard = lock(&self.data);
        buffer_mut(&mut guard).len()
    }

    /// Whether the writer has marked the end of the data.
    pub fn eof_written(&self) -> bool {
        let mut guard = lock(&self.data);
        buffer_mut(&mut guard).eof_written()
    }

    /// Whether the reader has aborted.
    pub fn is_aborted(&self) -> bool {
        let mut guard = lock(&self.data);
        buffer_mut(&mut guard).is_aborted()
    }

    /// Whether the reader has closed the stream.
    pub fn is_closed(&self) -> bool {
        let mut guard = lock(&self.data);
        buffer_mut(&mut guard).is_closed()
    }
}

// Methods for the reader
impl IoStream {
    /// Copies bytes into the front of `buf` once at least `min_len` are
    /// queued, and leaves them queued. The answer is that of
    /// [`StreamBuffer::serve`] on the queue as the reader finds it.
    pub fn peek(&self, buf: &mut [u8], min_len: usize) -> (r: InputResult<usize>)
        requires
            min_len <= old(buf)@.len(),
        ensures
            read_outcome(r, old(buf)@, final(buf)@, min_len as nat),
    {
        self.read_internal(buf, min_len, false)
    }

    /// Moves bytes from the queue into the front of `buf` once at least
    /// `min_len` are queued. The answer is that of [`StreamBuffer::serve`]
    /// on the queue as the reader finds it.
    pub fn read(&self, buf: &mut [u8], min_len: usize) -> (r: InputResult<usize>)
        requires
            min_len <= old(buf)@.len(),
        ensures
            read_outcome(r, old(buf)@, final(buf)@, min_len as nat),
    {
        self.read_internal(buf, min_len, true)
    }

    /// Drops `len` bytes from the queue once that many are queued. The
    /// answer is that of [`StreamBuffer::discard`] on the queue as the
    /// reader finds it.
    pub fn consume(&self, len: usize) -> (r: InputResult<usize>)
        ensures
            match r {
                Ok(n) => n == len,
                Err(InputError::StreamClosed) => true,
                Err(InputError::UnexpectedSigAbort(queued)) => queued == 0 || queued < len,
                Err(InputError::UnexpectedEof(queued)) => queued == 0 || queued < len,
            },
    {
        let guard = match self.lock_for_read() {
            Ok(guard) => guard,
            Err(e) => {
                return Err(e);
            },
        };
        let mut guard = match IoStream::wait_for_read(guard, len, len, &self.cv) {
            Ok(guard) => guard,
            Err(e) => {
                return Err(e);
            },
        };
        buffer_mut(&mut guard).discard(len)
    }

    /// Whether the data has ended and nothing is queued.
    pub fn is_eof(&self) -> bool {
        let mut guard = lock(&self.data);
        buffer_mut(&mut guard).is_eof()
    }

    /// Aborts the stream for the reader: the writer gets no more bytes accepted.
    pub fn abort(&self) {
        let mut guard = lock(&self.data);
        buffer_mut(&mut guard).abort();
    }

    /// Closes the stream for the reader and wakes a writer that waits for it.
    pub fn close(&self) {
        let mut guard = lock(&self.data);
        buffer_mut(&mut guard).close();
        self.cv.notify_one();
    }

    /// Takes the lock, sleeps while too few bytes are queued and more can
    /// come, and serves the reader from the queue as it then stands.
    fn read_internal(&self, buf: &mut [u8], min_len: usize, consume: bool) -> (r: InputResult<
        usize,
    >)
        requires
            min_len <= old(buf)@.len(),
        ensures
            read_outcome(r, old(buf)@, final(buf)@, min_len as nat),
    {
        let guard = match self.lock_for_read() {
            Ok(guard) => guard,
            Err(e) => {
                return Err(e);
            },
        };
        let mut guard = match IoStream::wait_for_read(guard, min_len, buf.len(), &self.cv) {
            Ok(guard) => guard,
            Err(e) => {
                return Err(e);
            },
        };
        let r = buffer_mut(&mut guard).serve(buf, min_len, consume);
        proof {
            if let Ok(n) = r {
                assert(buf@.skip(n as int) =~= old(buf)@.skip(n as int));
            }
        }
        r
    }

    /// Takes the lock for a reader, unless the stream as it stands refuses
    /// the read.
    fn lock_for_read(&self) -> (r: InputResult<MutexGuard<StreamBuffer>>)
        ensures
            match r {
                Ok(_) => true,
                Err(InputError::StreamClosed) => true,
                Err(InputError::UnexpectedSigAbort(queued)) => queued == 0,
                Err(InputError::UnexpectedEof(queued)) => queued == 0,
            },
    {
        let mut guard = lock(&self.data);
        match buffer_mut(&mut guard).validate_for_read(false) {
            Ok(_) => Ok(guard),
            Err(e) => Err(e),
        }
    }

    /// Sleeps until `min_len` bytes are queued or the stream can deliver no
    /// more. A sleep that a panic of the writer cut short is left to the
    /// caller, which finds too few bytes queued.
    fn wait_for_read<'a>(
        guard: MutexGuard<'a, StreamBuffer>,
        min_len: usize,
        target_len: usize,
        cv: &Condvar,
    ) -> (r: InputResult<MutexGuard<'a, StreamBuffer>>)
        ensures
            match r {
                Ok(_) => true,
                Err(InputError::StreamClosed) => true,
                Err(InputError::UnexpectedSigAbort(queued)) => queued < min_len,
                Err(InputError::UnexpectedEof(queued)) => queued < min_len,
            },
    {
        let mut guard = sleep_while_parked(cv, guard, min_len, target_len);
        let buffer = buffer_mut(&mut guard);
        if buffer.len() < min_len {
            match buffer.validate_for_read(true) {
                Ok(_) => {},
                Err(e) => {
                    return Err(e);
                },
            }
        }
        Ok(guard)
    }
}

// Methods for the writer
impl IoStream {
    /// Appends `buf` to the queue and wakes the reader if the queue has
    /// reached the length it sleeps for.
    pub fn write(&self, buf: &[u8]) -> (r: OutputResult<usize>)
        ensures
            r matches Ok(n) ==> n == buf@.len(),
    {
        let mut guard = self.lock_for_write()?;
        let buffer = buffer_mut(&mut guard);
        let r = buffer.write(buf);
        if buffer.reached_target() {
            self.cv.notify_one();
        }
        r
    }

    /// Marks the end of the data and wakes the reader.
    pub fn write_eof(&self) -> OutputResult<()> {
        let mut guard = self.lock_for_write()?;
        let r = buffer_mut(&mut guard).write_eof();
        self.cv.notify_one();
        r
    }

    /// Fails at once unless the reader has aborted; otherwise sleeps until the
    /// reader has closed the stream. The answers are those of
    /// [`StreamBuffer::validate_for_close`] before the sleep and of
    /// [`StreamBuffer::closed_verdict`] after it, on the stream as the
    /// writer finds it.
    pub fn wait_for_close(&self) -> Result<(), ()> {
        let mut guard = lock(&self.data);
        match buffer_mut(&mut guard).validate_for_close() {
            Ok(_) => {},
            Err(e) => {
                return Err(e);
            },
        }
        let mut guard = sleep_while_open(&self.cv, guard);
        buffer_mut(&mut guard).closed_verdict()
    }

    /// The bytes that the reader left queued when it closed the stream.
    pub fn take_unread_data(&self) -> (unread: Option<Vec<u8>>)
        ensures
            unread matches Some(bytes) ==> bytes@.len() > 0,
    {
        let mut guard = lock(&self.data);
        buffer_mut(&mut guard).take_unread_data()
    }

    /// Takes the lock for the writer, unless the stream as it stands
    /// refuses writes.
    fn lock_for_write(&self) -> OutputResult<MutexGuard<StreamBuffer>> {
        let mut guard = lock(&self.data);
        match buffer_mut(&mut guard).validate_for_write() {
            Ok(_) => Ok(guard),
            Err(e) => Err(e),
        }
    }
}

/// The writer's end of a stream.
#[derive(Clone)]
pub struct OutputStream {
    ostream: Arc<IoStream>,
}

impl OutputStream {
    /// The stream that this endpoint writes to.
    pub closed spec fn stream(&self) -> Arc<IoStream> {
        self.ostream
    }

    /// The writer's end of `ostream`.
    pub fn new(ostream: Arc<IoStream>) -> (output: Self)
        ensures
            output.stream() == ostream,
    {
        OutputStream { ostream }
    }

    /// Appends `buf` to the stream; it fails once the reader has aborted or
    /// the data has ended.
    pub fn write(&self, buf: &[u8]) -> (r: OutputResult<usize>)
        ensures
            r matches Ok(n) ==> n == buf@.len(),
    {
        self.ostream.write(buf)
    }

    /// Marks the end of the data.
    pub fn write_eof(&self) -> OutputResult<()> {
        self.ostream.write_eof()
    }

    /// Whether nothing is queued at the time of the call.
    pub fn is_empty(&self) -> bool {
        self.ostream.is_empty()
    }

    /// The number of bytes queued at the time of the call.
    pub fn len(&self) -> usize {
        self.ostream.len()
    }

    /// Whether the end of the data has been marked.
    pub fn eof_written(&self) -> bool {
        self.ostream.eof_written()
    }

    /// Whether the reader has aborted.
    pub fn is_aborted(&self) -> bool {
        self.ostream.is_aborted()
    }

    /// Whether the reader has closed the stream.
    pub fn is_closed(&self) -> bool {
        self.ostream.is_closed()
    }

    /// Fails at once unless the reader has aborted; otherwise waits until the
    /// reader has closed the stream.
    pub fn wait_for_close(&self) -> Result<(), ()> {
        self.ostream.wait_for_close()
    }

    /// The bytes that the reader left queued when it closed the stream.
    pub fn unread_data(&self) -> (unread: Option<Vec<u8>>)
        ensures
            unread matches Some(bytes) ==> bytes@.len() > 0,
    {
        self.ostream.take_unread_data()
    }
}

/// Read-ahead storage of a reader: bytes taken off the stream and not yet
/// handed to the caller live between `read_offset` and `write_offset`.
struct Buffer {
    data: Vec<u8>,
    write_offset: usize,
    read_offset: usize,
}

impl Buffer {
    spec fn wf(&self) -> bool {
        self.read_offset <= self.write_offset <= self.data@.len()
    }

    /// The bytes held, oldest first.
    spec fn pending(&self) -> Seq<u8> {
        self.data@.subrange(self.read_offset as int, self.write_offset as int)
    }

    /// The room behind the bytes held.
    spec fn space(&self) -> nat {
        (self.data@.len() - self.write_offset) as nat
    }

    fn new(size: usize) -> (buffer: Self)
        ensures
            buffer.wf(),
            buffer.pending() == Seq::<u8>::empty(),
            buffer.data@.len() == size,
    {
        let mut data: Vec<u8> = Vec::new();
        data.resize(size, 0u8);
        let buffer = Buffer { data, write_offset: 0, read_offset: 0 };
        assert(buffer.pending() =~= Seq::<u8>::empty());
        buffer
    }

    fn data_len(&self) -> (n: usize)
        requires
            self.wf(),
        ensures
            n == self.pending().len(),
    {
        self.write_offset - self.read_offset
    }

    fn capacity(&self) -> (n: usize)
        ensures
            n == self.data@.len(),
    {
        self.data.len()
    }

    fn clear(&mut self)
        ensures
            final(self).wf(),
            final(self).pending() == Seq::<u8>::empty(),
            final(self).data@ == old(self).data@,
    {
        self.write_offset = 0;
        self.read_offset = 0;
        assert(self.pending() =~= Seq::<u8>::empty());
    }

    /// The oldest `len` bytes held, or all of them.
    fn data_slice(&self, len: Option<usize>) -> (slice: &[u8])
        requires
            self.wf(),
            len matches Some(n) ==> n <= self.pending().len(),
        ensures
            slice@ == match len {
                Some(n) => self.pending().take(n as int),
                None => self.pending(),
            },
    {
        let end = match len {
            Some(n) => self.read_offset + n,
            None => self.write_offset,
        };
        let slice = vstd::slice::slice_subrange(self.data.as_slice(), self.read_offset, end);
        assert(slice@ =~= match len {
            Some(n) => self.pending().take(n as int),
            None => self.pending(),
        });
        slice
    }

    fn slice(&self) -> (slice: &[u8])
        ensures
            slice@ == self.data@,
    {
        self.data.as_slice()
    }

    /// The room behind the bytes held, for a writer to fill from its front.
    fn slice_mut(&mut self) -> (room: &mut [u8])
        requires
            old(self).wf(),
        ensures
            room@ == old(self).data@.skip(old(self).write_offset as int),
            final(self).write_offset == old(self).write_offset,
            final(self).read_offset == old(self).read_offset,
            final(self).data@ == old(self).data@.take(old(self).write_offset as int) + final(room)@,
    {
        let mid = self.write_offset;
        let (_, room) = self.data.as_mut_slice().split_at_mut(mid);
        room
    }

    /// Counts the first `len` bytes of the room as held.
    fn commit_write(&mut self, len: usize)
        requires
            old(self).wf(),
            len <= old(self).space(),
        ensures
            final(self).wf(),
            final(self).data@ == old(self).data@,
            final(self).pending() == old(self).pending() + old(self).data@.subrange(
                old(self).write_offset as int,
                old(self).write_offset + len,
            ),
    {
        let capacity = self.data.len();
        assert(self.write_offset + len <= capacity);
        self.write_offset += len;
        assert(self.pending() =~= old(self).pending() + old(self).data@.subrange(
            old(self).write_offset as int,
            old(self).write_offset + len,
        ));
    }

    /// Lets go of the oldest `len` bytes held.
    fn consume(&mut self, len: usize)
        requires
            old(self).wf(),
            len <= old(self).pending().len(),
        ensures
            final(self).wf(),
            final(self).pending() == old(self).pending().skip(len as int),
            final(self).data@ == old(self).data@,
    {
        if len == self.write_offset - self.read_offset {
            self.write_offset = 0;
            self.read_offset = 0;
        } else {
            self.read_offset += len;
        }
        assert(self.pending() =~= old(self).pending().skip(len as int));
    }

    /// Makes room for `additional` bytes behind the bytes held: moves them to
    /// the front of the storage and enlarges the storage if it is too small.
    fn reserve(&mut self, additional: usize)
        requires
            old(self).wf(),
            old(self).pending().len() + additional <= usize::MAX,
        ensures
            final(self).wf(),
            final(self).pending() == old(self).pending(),
            final(self).space() >= additional,
    {
        let held = self.write_offset - self.read_offset;
        if self.read_offset > 0 {
            let start = self.read_offset;
            let mut i: usize = 0;
            while i < held
                invariant
                    i <= held,
                    start > 0,
                    start + held <= self.data@.len(),
                    self.data@.len() == old(self).data@.len(),
                    start == old(self).read_offset,
                    held == old(self).pending().len(),
                    old(self).wf(),
                    forall|j: int| 0 <= j < i ==> self.data@[j] == old(self).pending()[j],
                    forall|j: int|
                        i <= j < held ==> self.data@[start + j] == old(self).pending()[j],
                decreases held - i,
            {
                let byte = self.data[start + i];
                self.data[i] = byte;
                i += 1;
            }
            self.read_offset = 0;
            self.write_offset = held;
        }
        assert(self.pending() =~= old(self).pending());
        if self.data.len() - self.write_offset < additional {
            let ghost before = self.data@;
            self.data.resize(held + additional, 0u8);
            assert(self.pending() =~= old(self).pending());
        }
    }
}

/// The order of the bytes of a number.
#[derive(Debug, Clone, Copy, PartialEq, Eq, Structural)]
pub enum ByteOrder {
    BigEndian,
    LittleEndian,
}

/// The number that `bytes` spell in the given order.
pub open spec fn number_from_bytes(order: ByteOrder, bytes: Seq<u8>) -> nat
    decreases bytes.len(),
{
    if bytes.len() == 0 {
        0
    } else {
        match order {
            ByteOrder::BigEndian => number_from_bytes(order, bytes.drop_last()) * 256
                + bytes.last() as nat,
            ByteOrder::LittleEndian => bytes.first() as nat + 256 * number_from_bytes(
                order,
                bytes.drop_first(),
            ),
        }
    }
}

/// The reader's end of a stream.
///
/// It takes bytes off the shared stream ahead of need and keeps them pending;
/// a read hands pending bytes to the caller. The model of a reader is made of
/// four sequences: the bytes `pending`, every byte `consumed` so far, the
/// bytes `retained` for replay, and the place in `consumed` from which
/// `processed_len` counts.
pub struct InputStream {
    istream: Arc<IoStream>,
    pre_load_buffer: Buffer,
    retained_buffer: Vec<u8>,
    processed_len: usize,
    consumed: Ghost<Seq<u8>>,
    counted_from: Ghost<nat>,
}

impl InputStream {
    /// The bytes taken off the stream and not yet handed out, oldest first.
    pub closed spec fn pending(&self) -> Seq<u8> {
        self.pre_load_buffer.pending()
    }

    /// Every byte handed out by a consuming read since the reader was made.
    pub closed spec fn consumed(&self) -> Seq<u8> {
        self.consumed@
    }

    /// The bytes kept for replay since they were last cleared.
    pub closed spec fn retained(&self) -> Seq<u8> {
        self.retained_buffer@
    }

    /// How many bytes had been consumed when the count was last reset.
    pub closed spec fn counted_from(&self) -> nat {
        self.counted_from@
    }

    /// The count that `processed_len` reports: the bytes consumed since the
    /// last reset, held at `usize::MAX` once it has grown past it.
    pub open spec fn processed(&self) -> nat {
        min_int(self.consumed().len() - self.counted_from(), usize::MAX as int) as nat
    }

    /// The reader holds together: its count is the count of the bytes consumed
    /// since the last reset.
    pub closed spec fn wf(&self) -> bool {
        &&& self.pre_load_buffer.wf()
        &&& self.counted_from@ <= self.consumed@.len()
        &&& self.processed_len == self.processed()
    }

    /// The count starts within the bytes consumed.
    pub proof fn lemma_counted_from_in_range(&self)
        requires
            self.wf(),
        ensures
            self.counted_from() <= self.consumed().len(),
    {
    }

    /// The count of processed bytes never falls between resets: a read that
    /// hands out `data` adds its length to the count, and the count stops at
    /// `usize::MAX`. A peek and a failed read leave the count as it is.
    pub proof fn law_processed_len_counts_consumed_bytes(
        &self,
        pre: &InputStream,
        data: Seq<u8>,
        keep: bool,
    )
        requires
            pre.wf(),
        ensures
            self.follows_read(pre, data, keep) ==> self.processed() == min_int(
                (pre.processed() + data.len()) as int,
                usize::MAX as int,
            ) && self.processed() >= pre.processed(),
            self.follows_peek(pre, data) || self.same_as(pre) ==> self.processed()
                == pre.processed(),
    {
    }

    /// `self` is what `pre` becomes by handing `data` to the caller for good.
    pub open spec fn follows_read(&self, pre: &InputStream, data: Seq<u8>, keep: bool) -> bool {
        &&& self.wf()
        &&& pre.pending().is_prefix_of(data + self.pending())
        &&& self.consumed() == pre.consumed() + data
        &&& self.counted_from() == pre.counted_from()
        &&& self.retained() == if keep {
            pre.retained() + data
        } else {
            pre.retained()
        }
    }

    /// `self` is what `pre` becomes by showing `data` to the caller: the bytes
    /// stay pending.
    pub open spec fn follows_peek(&self, pre: &InputStream, data: Seq<u8>) -> bool {
        &&& self.wf()
        &&& pre.pending().is_prefix_of(self.pending())
        &&& data.is_prefix_of(self.pending())
        &&& self.consumed() == pre.consumed()
        &&& self.counted_from() == pre.counted_from()
        &&& self.retained() == pre.retained()
    }

    /// `self` and `pre` are the same reader as far as the model goes.
    pub open spec fn same_as(&self, pre: &InputStream) -> bool {
        &&& self.wf()
        &&& self.pending() == pre.pending()
        &&& self.consumed() == pre.consumed()
        &&& self.counted_from() == pre.counted_from()
        &&& self.retained() == pre.retained()
    }

    /// The number of bytes that must be pending before a read into a buffer
    /// of `buf_len` bytes is served: all of them with `fill`, else one.
    pub open spec fn needed(buf_len: nat, fill: bool) -> nat {
        if fill {
            buf_len
        } else {
            min_int(1, buf_len as int) as nat
        }
    }

    /// What a read of `pre` into `old_buf` leaves behind, whatever the stream
    /// delivered. With `fill` the read is served in full or not at all;
    /// without it, it is served from the bytes at hand, and waits for the
    /// first byte only. Bytes that were pending are served first; while
    /// enough are pending the read succeeds and takes no byte off the
    /// stream.
    pub open spec fn read_result(
        &self,
        pre: &InputStream,
        r: InputResult<usize>,
        old_buf: Seq<u8>,
        new_buf: Seq<u8>,
        fill: bool,
        keep: bool,
        consume: bool,
    ) -> bool {
        &&& new_buf.len() == old_buf.len()
        &&& pre.pending().len() >= Self::needed(old_buf.len(), fill) ==> r is Ok
        &&& match r {
            Ok(n) => {
                let data = new_buf.take(n as int);
                let need = Self::needed(old_buf.len(), fill);
                &&& need <= n <= old_buf.len()
                &&& new_buf.skip(n as int) == old_buf.skip(n as int)
                &&& if consume {
                    self.follows_read(pre, data, keep)
                } else {
                    self.follows_peek(pre, data)
                }
                &&& pre.pending().len() >= need ==> {
                    &&& n == min_int(old_buf.len() as int, pre.pending().len() as int)
                    &&& data == pre.pending().take(n as int)
                    &&& self.pending() == if consume {
                        pre.pending().skip(n as int)
                    } else {
                        pre.pending()
                    }
                }
            },
            Err(_) => new_buf == old_buf && self.same_as(pre),
        }
    }

    /// The reader's end of `istream`, with read-ahead storage for `pre_load_len`
    /// bytes at the start.
    pub fn new(istream: Arc<IoStream>, pre_load_len: usize) -> (input: Self)
        ensures
            input.wf(),
            input.pending() == Seq::<u8>::empty(),
            input.consumed() == Seq::<u8>::empty(),
            input.retained() == Seq::<u8>::empty(),
            input.counted_from() == 0,
    {
        InputStream {
            istream,
            pre_load_buffer: Buffer::new(pre_load_len),
            retained_buffer: Vec::new(),
            processed_len: 0,
            consumed: Ghost(Seq::empty()),
            counted_from: Ghost(0),
        }
    }

    /// Shows the next byte and leaves it pending.
    pub fn peek_byte(&mut self) -> (r: InputResult<u8>)
        requires
            old(self).wf(),
        ensures
            old(self).pending().len() >= 1 ==> r is Ok && final(self).pending() == old(self).pending(),
            match r {
                Ok(byte) => final(self).follows_peek(old(self), seq![byte]),
                Err(_) => final(self).same_as(old(self)),
            },
    {
        let mut byte = [0u8];
        match self.peek(&mut byte, true) {
            Ok(_) => {
                assert(byte@.take(1) =~= seq![byte[0]]);
                Ok(byte[0])
            },
            Err(e) => Err(e),
        }
    }

    /// Hands out the next byte.
    pub fn read_byte(&mut self, keep: bool) -> (r: InputResult<u8>)
        requires
            old(self).wf(),
        ensures
            old(self).pending().len() >= 1 ==> r is Ok && final(self).pending() == old(self).pending().skip(1),
            match r {
                Ok(byte) => final(self).follows_read(old(self), seq![byte], keep),
                Err(_) => final(self).same_as(old(self)),
            },
    {
        let mut byte = [0u8];
        match self.read(&mut byte, true, keep) {
            Ok(_) => {
                assert(byte@.take(1) =~= seq![byte[0]]);
                Ok(byte[0])
            },
            Err(e) => Err(e),
        }
    }

    /// Hands out the next two bytes as one number. While two bytes are
    /// pending it succeeds, with those.
    pub fn read_u16(&mut self, order: ByteOrder, keep: bool) -> (r: InputResult<u16>)
        requires
            old(self).wf(),
        ensures
            old(self).pending().len() >= 2 ==> (r matches Ok(value) && value == number_from_bytes(
                order,
                old(self).pending().take(2),
            ) && final(self).pending() == old(self).pending().skip(2)),
            match r {
                Ok(value) => exists|data: Seq<u8>|
                    #![auto]
                    data.len() == 2 && value == number_from_bytes(order, data) && final(self).follows_read(old(self), data, keep),
                Err(_) => final(self).same_as(old(self)),
            },
    {
        let mut bytes = [0u8; 2];
        match self.read(&mut bytes, true, keep) {
            Ok(_) => {
                let value = match order {
                    ByteOrder::BigEndian => bytes[0] as u16 * 256 + bytes[1] as u16,
                    ByteOrder::LittleEndian => bytes[0] as u16 + 256 * (bytes[1] as u16),
                };
                proof {
                    let data = bytes@.take(2);
                    assert(data =~= bytes@);
                    lemma_number_from_two_bytes(order, data);
                }
                Ok(value)
            },
            Err(e) => Err(e),
        }
    }

    /// Hands out the next four bytes as one number. While four bytes are
    /// pending it succeeds, with those.
    pub fn read_u32(&mut self, order: ByteOrder, keep: bool) -> (r: InputResult<u32>)
        requires
            old(self).wf(),
        ensures
            old(self).pending().len() >= 4 ==> (r matches Ok(value) && value == number_from_bytes(
                order,
                old(self).pending().take(4),
            ) && final(self).pending() == old(self).pending().skip(4)),
            match r {
                Ok(value) => exists|data: Seq<u8>|
                    #![auto]
                    data.len() == 4 && value == number_from_bytes(order, data) && final(self).follows_read(old(self), data, keep),
                Err(_) => final(self).same_as(old(self)),
            },
    {
        let mut bytes = [0u8; 4];
        match self.read(&mut bytes, true, keep) {
            Ok(_) => {
                let value = match order {
                    ByteOrder::BigEndian => ((bytes[0] as u32 * 256 + bytes[1] as u32) * 256
                        + bytes[2] as u32) * 256 + bytes[3] as u32,
                    ByteOrder::LittleEndian => bytes[0] as u32 + 256 * (bytes[1] as u32 + 256 * (
                    bytes[2] as u32 + 256 * (bytes[3] as u32))),
                };
                proof {
                    let data = bytes@.take(4);
                    assert(data =~= bytes@);
                    lemma_number_from_four_bytes(order, data);
                }
                Ok(value)
            },
            Err(e) => Err(e),
        }
    }

    /// Shows the next bytes in the front of `buf` and leaves them pending.
    pub fn peek(&mut self, buf: &mut [u8], fill: bool) -> (r: InputResult<usize>)
        requires
            old(self).wf(),
        ensures
            final(self).read_result(old(self), r, old(buf)@, final(buf)@, fill, false, false),
    {
        self.read_internal(buf, fill, false, false)
    }

    /// Hands out the next bytes in the front of `buf`, and retains them for
    /// replay if `keep` is set.
    pub fn read(&mut self, buf: &mut [u8], fill: bool, keep: bool) -> (r: InputResult<usize>)
        requires
            old(self).wf(),
        ensures
            final(self).read_result(old(self), r, old(buf)@, final(buf)@, fill, keep, true),
    {
        self.read_internal(buf, fill, keep, true)
    }

    /// Skips the next `len` bytes, and retains them for replay if `keep` is
    /// set. It skips all of them or none.
    pub fn consume(&mut self, len: usize, keep: bool) -> (r: InputResult<usize>)
        requires
            old(self).wf(),
        ensures
            old(self).pending().len() >= len ==> r is Ok,
            match r {
                Ok(n) => {
                    let data = final(self).consumed().skip(old(self).consumed().len() as int);
                    &&& n == len
                    &&& data.len() == len
                    &&& final(self).follows_read(old(self), data, keep)
                    &&& old(self).pending().len() >= len ==> final(self).pending() == old(self).pending().skip(len as int)
                },
                Err(_) => final(self).same_as(old(self)),
            },
    {
        match self.pre_load(len) {
            Ok(_) => {},
            Err(e) => {
                return Err(e);
            },
        }
        let ghost data = self.pre_load_buffer.pending().take(len as int);
        let ghost loaded = *self;
        if keep {
            let kept = self.pre_load_buffer.data_slice(Some(len));
            let mut i: usize = 0;
            while i < len
                invariant
                    i <= len,
                    kept@ == data,
                    data.len() == len,
                    self.retained_buffer@ =~= old(self).retained_buffer@ + data.take(i as int),
                    self.pre_load_buffer == loaded.pre_load_buffer,
                    self.processed_len == loaded.processed_len,
                    self.consumed == loaded.consumed,
                    self.counted_from == loaded.counted_from,
                decreases len - i,
            {
                self.retained_buffer.push(kept[i]);
                i += 1;
            }
            assert(data.take(len as int) =~= data);
        }
        self.pre_load_buffer.consume(len);
        self.count(len, Ghost(data));
        proof {
            assert(self.consumed@.skip(old(self).consumed@.len() as int) =~= data);
            assert(old(self).pending().is_prefix_of(data + self.pending())) by {
                assert((data + self.pending()) =~= (old(self).pending() + (data
                    + self.pending()).skip(old(self).pending().len() as int)));
            }
        }
        Ok(len)
    }

    /// The bytes consumed since the count was last reset.
    pub fn processed_len(&self) -> (n: usize)
        requires
            self.wf(),
        ensures
            n == self.processed(),
    {
        self.processed_len
    }

    /// Starts the count of processed bytes over.
    pub fn reset_processed_len(&mut self)
        requires
            old(self).wf(),
        ensures
            final(self).wf(),
            final(self).counted_from() == old(self).consumed().len(),
            final(self).processed() == 0,
            final(self).pending() == old(self).pending(),
            final(self).consumed() == old(self).consumed(),
            final(self).retained() == old(self).retained(),
    {
        self.processed_len = 0;
        self.counted_from = Ghost(self.consumed@.len());
    }

    /// The bytes retained for replay.
    pub fn view_retained_data(&self) -> (data: &[u8])
        ensures
            data@ == self.retained(),
    {
        self.retained_buffer.as_slice()
    }

    /// Hands out the bytes that are pending, all of them and no others:
    /// they count as consumed, and the stream is not asked for more.
    pub fn take_pending(&mut self) -> (bytes: Vec<u8>)
        requires
            old(self).wf(),
        ensures
            bytes@ == old(self).pending(),
            final(self).wf(),
            final(self).pending() == Seq::<u8>::empty(),
            final(self).consumed() == old(self).consumed() + bytes@,
            final(self).counted_from() == old(self).counted_from(),
            final(self).retained() == old(self).retained(),
    {
        let n = self.pre_load_buffer.data_len();
        let mut bytes: Vec<u8> = Vec::new();
        bytes.resize(n, 0u8);
        let _served = self.read(bytes.as_mut_slice(), true, false);
        proof {
            assert(old(self).pending().take(n as int) =~= old(self).pending());
            assert(old(self).pending().skip(n as int) =~= Seq::<u8>::empty());
            assert(bytes@.take(n as int) =~= bytes@);
        }
        bytes
    }

    /// Forgets the bytes retained for replay.
    pub fn clear_retained_data(&mut self)
        requires
            old(self).wf(),
        ensures
            final(self).wf(),
            final(self).retained() == Seq::<u8>::empty(),
            final(self).pending() == old(self).pending(),
            final(self).consumed() == old(self).consumed(),
            final(self).counted_from() == old(self).counted_from(),
    {
        self.retained_buffer.clear();
    }

    /// Whether no byte is pending and none is queued in the stream.
    pub fn is_empty(&self) -> (b: bool)
        requires
            self.wf(),
        ensures
            b ==> self.pending().len() == 0,
    {
        self.pre_load_buffer.data_len() == 0 && self.istream.is_empty()
    }

    /// The bytes at hand: those pending and those queued in the stream, held
    /// at `usize::MAX` if they are more.
    pub fn len(&self) -> (n: usize)
        requires
            self.wf(),
        ensures
            n >= self.pending().len(),
    {
        self.pre_load_buffer.data_len().saturating_add(self.istream.len())
    }

    /// Whether the writer has marked the end of the data.
    pub fn eof_written(&self) -> bool {
        self.istream.eof_written()
    }

    /// Whether the reader has nothing pending and the stream has ended.
    pub fn is_eof(&self) -> (b: bool)
        requires
            self.wf(),
        ensures
            b ==> self.pending().len() == 0,
    {
        self.pre_load_buffer.data_len() == 0 && self.istream.is_eof()
    }

    /// Whether the reader has aborted.
    pub fn is_aborted(&self) -> bool {
        self.istream.is_aborted()
    }

    /// Whether the reader has closed the stream.
    pub fn is_closed(&self) -> bool {
        self.istream.is_closed()
    }

    /// Aborts the stream: the writer gets no more bytes accepted.
    pub fn abort(&self) {
        self.istream.abort()
    }

    /// Closes the stream and wakes a writer that waits for it. The bytes
    /// still queued go to the writer. The bytes that are pending have left
    /// the queue: they stay with the reader, which can still read them.
    pub fn close(&self) {
        self.istream.close()
    }

    /// Takes bytes off the stream until `need` bytes are pending.
    fn pre_load(&mut self, need: usize) -> (r: InputResult<()>)
        requires
            old(self).wf(),
        ensures
            old(self).pending().len() >= need ==> r is Ok,
            match r {
                Ok(_) => {
                    &&& final(self).follows_peek(old(self), Seq::<u8>::empty())
                    &&& final(self).pending().len() >= need
                    &&& old(self).pending().len() >= need ==> final(self).pending() == old(self).pending()
                },
                Err(_) => final(self).same_as(old(self)),
            },
    {
        let held = self.pre_load_buffer.data_len();
        if held >= need {
            return Ok(());
        }
        let missing = need - held;
        self.pre_load_buffer.reserve(missing);
        let ghost stored = self.pre_load_buffer;
        let room = self.pre_load_buffer.slice_mut();
        match self.istream.read(room, missing) {
            Ok(n) => {
                self.pre_load_buffer.commit_write(n);
                assert(stored.pending().is_prefix_of(self.pre_load_buffer.pending())) by {
                    assert(self.pre_load_buffer.pending().take(stored.pending().len() as int)
                        =~= stored.pending());
                }
                Ok(())
            },
            Err(e) => {
                assert(self.pre_load_buffer.data@ =~= stored.data@);
                assert(self.pre_load_buffer.pending() =~= stored.pending());
                Err(e)
            },
        }
    }

    /// Counts `len` bytes, the sequence `data`, as consumed.
    fn count(&mut self, len: usize, data: Ghost<Seq<u8>>)
        requires
            old(self).processed_len == old(self).processed(),
            old(self).counted_from@ <= old(self).consumed@.len(),
            data@.len() == len,
        ensures
            final(self).processed_len == final(self).processed(),
            final(self).consumed@ == old(self).consumed@ + data@,
            final(self).counted_from@ == old(self).counted_from@,
            final(self).pre_load_buffer == old(self).pre_load_buffer,
            final(self).retained_buffer == old(self).retained_buffer,
    {
        self.processed_len = self.processed_len.saturating_add(len);
        self.consumed = Ghost(self.consumed@ + data@);
    }

    fn read_internal(&mut self, buf: &mut [u8], fill: bool, keep: bool, consume: bool) -> (r:
        InputResult<usize>)
        requires
            old(self).wf(),
        ensures
            final(self).read_result(old(self), r, old(buf)@, final(buf)@, fill, keep, consume),
    {
        if buf.len() == 0 {
            assert(buf@.take(0) =~= Seq::<u8>::empty());
            assert(old(self).pending().is_prefix_of(Seq::<u8>::empty() + self.pending())) by {
                assert(Seq::<u8>::empty() + self.pending() =~= self.pending());
            }
            assert(self.consumed() =~= old(self).consumed() + Seq::<u8>::empty());
            assert(self.retained() =~= old(self).retained() + Seq::<u8>::empty());
            assert(self.pending().take(0) =~= Seq::<u8>::empty());
            assert(self.pending().skip(0) =~= self.pending());
            return Ok(0);
        }
        let need = if fill {
            buf.len()
        } else {
            1
        };
        match self.pre_load(need) {
            Ok(_) => {},
            Err(e) => {
                return Err(e);
            },
        }
        let read_len = min_usize(buf.len(), self.pre_load_buffer.data_len());
        let ghost data = self.pre_load_buffer.pending().take(read_len as int);
        let source = self.pre_load_buffer.data_slice(Some(read_len));
        let mut i: usize = 0;
        while i < read_len
            invariant
                i <= read_len,
                read_len <= buf@.len(),
                buf@.len() == old(buf)@.len(),
                source@ == data,
                data.len() == read_len,
                buf@ =~= data.take(i as int) + old(buf)@.skip(i as int),
            decreases read_len - i,
        {
            buf[i] = source[i];
            i += 1;
        }
        assert(buf@.take(read_len as int) =~= data);
        assert(buf@.skip(read_len as int) =~= old(buf)@.skip(read_len as int));
        let ghost loaded = *self;
        if consume {
            if keep {
                let mut k: usize = 0;
                while k < read_len
                    invariant
                        k <= read_len,
                        read_len <= buf@.len(),
                        buf@.take(read_len as int) == data,
                        self.retained_buffer@ =~= old(self).retained_buffer@ + data.take(k as int),
                        self.pre_load_buffer == loaded.pre_load_buffer,
                        self.processed_len == loaded.processed_len,
                        self.consumed == loaded.consumed,
                        self.counted_from == loaded.counted_from,
                    decreases read_len - k,
                {
                    self.retained_buffer.push(buf[k]);
                    k += 1;
                }
                assert(data.take(read_len as int) =~= data);
            }
            self.pre_load_buffer.consume(read_len);
            self.count(read_len, Ghost(data));
            proof {
                assert(old(self).pending().is_prefix_of(data + self.pending())) by {
                    assert((data + self.pending()) =~= (old(self).pending() + (data
                        + self.pending()).skip(old(self).pending().len() as int)));
                }
            }
        }
        Ok(read_len)
    }
}

proof fn lemma_number_from_two_bytes(order: ByteOrder, data: Seq<u8>)
    requires
        data.len() == 2,
    ensures
        number_from_bytes(order, data) == match order {
            ByteOrder::BigEndian => data[0] * 256 + data[1],
            ByteOrder::LittleEndian => data[0] + 256 * data[1],
        },
{
    reveal_with_fuel(number_from_bytes, 3);
    assert(data.drop_last().drop_last().len() == 0);
    assert(data.drop_first().drop_first().len() == 0);
}

proof fn lemma_number_from_four_bytes(order: ByteOrder, data: Seq<u8>)
    requires
        data.len() == 4,
    ensures
        number_from_bytes(order, data) == match order {
            ByteOrder::BigEndian => ((data[0] * 256 + data[1]) * 256 + data[2]) * 256 + data[3],
            ByteOrder::LittleEndian => data[0] + 256 * (data[1] + 256 * (data[2] + 256 * data[3])),
        },
{
    reveal_with_fuel(number_from_bytes, 5);
    let a = data.drop_last();
    let b = a.drop_last();
    let c = b.drop_last();
    assert(c.drop_last().len() == 0);
    let x = data.drop_first();
    let y = x.drop_first();
    let z = y.drop_first();
    assert(z.drop_first().len() == 0);
}

/// A stream with its two ends. `pre_load_len` sizes the reader's read-ahead
/// storage at the start.
pub fn iostream(pre_load_len: usize) -> (ends: (InputStream, OutputStream))
    ensures
        ends.0.wf(),
        ends.0.pending() == Seq::<u8>::empty(),
        ends.0.consumed() == Seq::<u8>::empty(),
        ends.0.retained() == Seq::<u8>::empty(),
        ends.0.counted_from() == 0,
{
    let iostream = Arc::new(IoStream::new());
    (InputStream::new(iostream.clone(), pre_load_len), OutputStream { ostream: iostream })
}

} // verus!
