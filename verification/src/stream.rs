use vstd::prelude::*;

use crate::Error;

verus! {

/// Outcome of an operation that may have to wait for more network input.
///
/// The stream never performs network reads itself: when the backlog cannot
/// satisfy a request and the connection is still open, the operation returns
/// `NeedInput` and the caller appends the next network chunk with
/// [`Stream::feed`] (or marks end of stream with [`Stream::close`]) before
/// retrying.
#[derive(Debug, PartialEq, Eq)]
pub enum Pulled<T> {
    /// The request was satisfied from the backlog.
    Ready(T),
    /// The backlog is exhausted and the connection is still open: feed more
    /// bytes, then retry.
    NeedInput,
}

/// A buffered byte stream: an ordered backlog of bytes already received but
/// not yet consumed, plus a running count of consumed bytes.
///
/// The half-open network connection itself lives outside this type; its owner
/// pushes received chunks in with [`Stream::feed`].
pub struct Stream {
    /// Bytes received from the connection but not yet consumed.
    pub buffer: Vec<u8>,
    /// Number of bytes consumed since the last [`Stream::reset_count`].
    pub count: usize,
    /// Whether the peer has closed the connection.
    pub closed: bool,
}

impl Stream {
    pub fn new() -> (r: Stream)
        ensures
            r.buffer@ == Seq::<u8>::empty(),
            r.count == 0,
            !r.closed,
    {
        Stream { buffer: Vec::new(), count: 0, closed: false }
    }

    /// Appends one received network chunk to the backlog.
    pub fn feed(&mut self, chunk: &[u8])
        ensures
            final(self).buffer@ == old(self).buffer@ + chunk@,
            final(self).count == old(self).count,
            final(self).closed == old(self).closed,
    {
        proof {
            assert(old(self).buffer@ + chunk@.take(0) =~= old(self).buffer@);
        }
        let mut i: usize = 0;
        while i < chunk.len()
            invariant
                i <= chunk@.len(),
                self.buffer@ == old(self).buffer@ + chunk@.take(i as int),
                self.count == old(self).count,
                self.closed == old(self).closed,
            decreases chunk@.len() - i,
        {
            self.buffer.push(chunk[i]);
            i = i + 1;
            proof {
                assert(old(self).buffer@ + chunk@.take(i as int)
                    =~= (old(self).buffer@ + chunk@.take(i - 1)).push(chunk@[i - 1]));
            }
        }
        proof {
            assert(chunk@.take(chunk@.len() as int) =~= chunk@);
        }
    }

    /// Records that the peer closed the connection (a zero-length read).
    pub fn close(&mut self)
        ensures
            final(self).buffer@ == old(self).buffer@,
            final(self).count == old(self).count,
            final(self).closed,
    {
        self.closed = true;
    }

    /// Returns the next unconsumed byte without advancing.
    pub fn lookup_next_one(&self) -> (r: Result<Pulled<u8>, Error>)
        ensures
            self.buffer@.len() > 0 ==> (r matches Ok(p) && p == (Pulled::Ready(self.buffer@[0]))),
            self.buffer@.len() == 0 && self.closed ==> r == Err::<Pulled<u8>, Error>(Error::ConnectionClosed),
            self.buffer@.len() == 0 && !self.closed ==> (r matches Ok(p) && p is NeedInput),
    {
        if self.buffer.len() == 0 {
            if self.closed {
                Err(Error::ConnectionClosed)
            } else {
                Ok(Pulled::NeedInput)
            }
        } else {
            Ok(Pulled::Ready(self.buffer[0]))
        }
    }

    /// Returns the next unconsumed byte and removes it from the backlog.
    pub fn take_next_one(&mut self) -> (r: Result<Pulled<u8>, Error>)
        requires
            old(self).count < usize::MAX,
        ensures
            final(self).closed == old(self).closed,
            old(self).buffer@.len() > 0 ==> {
                &&& r matches Ok(p) && p == (Pulled::Ready(old(self).buffer@[0]))
                &&& final(self).buffer@ == old(self).buffer@.skip(1)
                &&& final(self).count == old(self).count + 1
            },
            old(self).buffer@.len() == 0 ==> *final(self) == *old(self),
            old(self).buffer@.len() == 0 && old(self).closed ==> r == Err::<Pulled<u8>, Error>(Error::ConnectionClosed),
            old(self).buffer@.len() == 0 && !old(self).closed ==> (r matches Ok(p) && p is NeedInput),
    {
        if self.buffer.len() == 0 {
            if self.closed {
                Err(Error::ConnectionClosed)
            } else {
                Ok(Pulled::NeedInput)
            }
        } else {
            let b = self.buffer[0];
            self.drop_front_n(1);
            self.count = self.count + 1;
            Ok(Pulled::Ready(b))
        }
    }

    /// Removes the first `n` backlogged bytes without touching the count.
    fn drop_front_n(&mut self, n: usize)
        requires
            n <= old(self).buffer@.len(),
        ensures
            final(self).buffer@ == old(self).buffer@.skip(n as int),
            final(self).count == old(self).count,
            final(self).closed == old(self).closed,
    {
        let mut out: Vec<u8> = Vec::new();
        let mut i: usize = n;
        proof {
            assert(out@ =~= old(self).buffer@.subrange(n as int, n as int));
        }
        while i < self.buffer.len()
            invariant
                n <= i <= self.buffer@.len(),
                self == old(self),
                out@ == self.buffer@.subrange(n as int, i as int),
            decreases self.buffer@.len() - i,
        {
            out.push(self.buffer[i]);
            i = i + 1;
            proof {
                assert(self.buffer@.subrange(n as int, i as int)
                    =~= self.buffer@.subrange(n as int, i - 1).push(self.buffer@[i - 1]));
            }
        }
        proof {
            assert(out@ =~= old(self).buffer@.skip(n as int));
        }
        self.buffer = out;
    }

    /// Removes exactly one byte from the front of the backlog.
    pub fn skip_next_one(&mut self) -> (r: Result<(), Error>)
        requires
            old(self).count < usize::MAX,
        ensures
            final(self).closed == old(self).closed,
            old(self).buffer@.len() == 0 ==> r == Err::<(), Error>(Error::InsufficientBuffer) && *final(self) == *old(self),
            old(self).buffer@.len() > 0 ==> {
                &&& r == Ok::<(), Error>(())
                &&& final(self).buffer@ == old(self).buffer@.skip(1)
                &&& final(self).count == old(self).count + 1
            },
    {
        self.skip_next_n(1)
    }

    /// Removes exactly `n` bytes from the front of the backlog; does not read
    /// from the network.
    pub fn skip_next_n(&mut self, n: usize) -> (r: Result<(), Error>)
        requires
            old(self).count + n <= usize::MAX,
        ensures
            final(self).closed == old(self).closed,
            n > old(self).buffer@.len() ==> r == Err::<(), Error>(Error::InsufficientBuffer) && *final(self) == *old(self),
            n <= old(self).buffer@.len() ==> {
                &&& r == Ok::<(), Error>(())
                &&& final(self).buffer@ == old(self).buffer@.skip(n as int)
                &&& final(self).count == old(self).count + n
            },
    {
        if n > self.buffer.len() {
            return Err(Error::InsufficientBuffer);
        }
        self.drop_front_n(n);
        self.count = self.count + n;
        Ok(())
    }

    /// Removes and returns the first `n` backlogged bytes.
    pub fn take_n_vec(&mut self, n: usize) -> (r: Result<Vec<u8>, Error>)
        requires
            old(self).count + n <= usize::MAX,
        ensures
            final(self).closed == old(self).closed,
            n > old(self).buffer@.len() ==> r == Err::<Vec<u8>, Error>(Error::InsufficientBuffer) && *final(self) == *old(self),
            n <= old(self).buffer@.len() ==> {
                &&& r matches Ok(v) && v@ == old(self).buffer@.take(n as int)
                &&& final(self).buffer@ == old(self).buffer@.skip(n as int)
                &&& final(self).count == old(self).count + n
            },
    {
        if n > self.buffer.len() {
            return Err(Error::InsufficientBuffer);
        }
        let out = self.copy_front_n(n);
        self.drop_front_n(n);
        self.count = self.count + n;
        Ok(out)
    }

    /// Copies the first `n` backlogged bytes without consuming them.
    fn copy_front_n(&self, n: usize) -> (r: Vec<u8>)
        requires
            n <= self.buffer@.len(),
        ensures
            r@ == self.buffer@.take(n as int),
    {
        let mut out: Vec<u8> = Vec::new();
        proof {
            assert(out@ =~= self.buffer@.take(0));
        }
        let mut i: usize = 0;
        while i < n
            invariant
                i <= n <= self.buffer@.len(),
                out@ == self.buffer@.take(i as int),
            decreases n - i,
        {
            out.push(self.buffer[i]);
            i = i + 1;
            proof {
                assert(self.buffer@.take(i as int)
                    =~= self.buffer@.take(i - 1).push(self.buffer@[i - 1]));
            }
        }
        out
    }

    /// Peeks and skips literal space bytes until a non-space byte is seen or
    /// the stream ends; end of stream is swallowed, not reported.
    pub fn skip_white_space(&mut self) -> (r: Pulled<()>)
        requires
            old(self).count + old(self).buffer@.len() <= usize::MAX,
        ensures
            final(self).closed == old(self).closed,
            ({
                let spaces = Self::space_prefix_len(old(self).buffer@);
                &&& final(self).buffer@ == old(self).buffer@.skip(spaces as int)
                &&& final(self).count == old(self).count + spaces
                &&& (if spaces < old(self).buffer@.len() || old(self).closed {
                        r is Ready
                    } else {
                        r is NeedInput
                    })
            }),
    {
        loop
            invariant
                self.closed == old(self).closed,
                old(self).count <= self.count,
                self.count - old(self).count <= old(self).buffer@.len() - self.buffer@.len(),
                old(self).count + old(self).buffer@.len() <= usize::MAX,
                self.buffer@ == old(self).buffer@.skip(self.count - old(self).count),
                Self::space_prefix_len(old(self).buffer@)
                    == Self::space_prefix_len(self.buffer@) + (self.count - old(self).count),
            decreases self.buffer@.len(),
        {
            if self.buffer.len() == 0 {
                if self.closed {
                    return Pulled::Ready(());
                } else {
                    return Pulled::NeedInput;
                }
            }
            let b = self.buffer[0];
            if b != 32u8 {
                return Pulled::Ready(());
            }
            let ghost before = self.buffer@;
            self.drop_front_n(1);
            self.count = self.count + 1;
            proof {
                assert(before.skip(1) =~= old(self).buffer@.skip(self.count - old(self).count));
            }
        }
    }

    /// Length of the longest all-space prefix of `s`.
    pub open spec fn space_prefix_len(s: Seq<u8>) -> nat
        decreases s.len(),
    {
        if s.len() == 0 {
            0
        } else if s[0] == 32u8 {
            1 + Self::space_prefix_len(s.skip(1))
        } else {
            0
        }
    }

    /// Reads exactly `size` bytes, counting bytes already in the backlog.
    /// Bytes fed beyond `size` stay in the backlog for later calls; the
    /// running count is not affected.
    pub fn read(&mut self, size: usize) -> (r: Result<Pulled<Vec<u8>>, Error>)
        ensures
            final(self).closed == old(self).closed,
            old(self).buffer@.len() >= size ==> {
                &&& r matches Ok(p) && (p matches Pulled::Ready(v) && v@ == old(self).buffer@.take(size as int))
                &&& final(self).buffer@ == old(self).buffer@.skip(size as int)
                &&& final(self).count == old(self).count
            },
            old(self).buffer@.len() < size ==> *final(self) == *old(self),
            old(self).buffer@.len() < size && old(self).closed ==> r == Err::<Pulled<Vec<u8>>, Error>(Error::ConnectionClosed),
            old(self).buffer@.len() < size && !old(self).closed ==> (r matches Ok(p) && p is NeedInput),
    {
        if self.buffer.len() < size {
            if self.closed {
                return Err(Error::ConnectionClosed);
            } else {
                return Ok(Pulled::NeedInput);
            }
        }
        let out = self.copy_front_n(size);
        self.drop_front_n(size);
        Ok(Pulled::Ready(out))
    }

    /// Clears the running count of consumed bytes.
    pub fn reset_count(&mut self)
        ensures
            final(self).buffer@ == old(self).buffer@,
            final(self).closed == old(self).closed,
            final(self).count == 0,
    {
        self.count = 0;
    }

    /// The running count of consumed bytes, by value.
    pub fn count_clone(&self) -> (r: usize)
        ensures
            r == self.count,
    {
        self.count
    }

    /// The running count of consumed bytes, by reference.
    pub fn count_ref(&self) -> (r: &usize)
        ensures
            *r == self.count,
    {
        &self.count
    }

    /// Opens a transactional cursor at the current consumption point.
    pub fn create_backtrace(&self) -> (r: Backtrace)
        ensures
            r.index == 0,
    {
        Backtrace { index: 0 }
    }
}

/// A transactional read position over a [`Stream`]'s backlog: a pure offset,
/// holding no copied data.
///
/// Every operation except [`Backtrace::commit`] and [`Backtrace::take_all_vec`]
/// borrows the stream immutably, so discarding a cursor without committing
/// leaves the stream untouched by construction.
pub struct Backtrace {
    /// How far past the stream's consumption point the cursor has advanced.
    pub index: usize,
}

impl Backtrace {
    /// Returns the byte at the cursor without advancing it.
    pub fn lookup_next_one(&self, stream: &Stream) -> (r: Result<Pulled<u8>, Error>)
        ensures
            self.index < stream.buffer@.len() ==> (r matches Ok(p) && p == (Pulled::Ready(stream.buffer@[self.index as int]))),
            self.index >= stream.buffer@.len() && stream.closed ==> r == Err::<Pulled<u8>, Error>(Error::ConnectionClosed),
            self.index >= stream.buffer@.len() && !stream.closed ==> (r matches Ok(p) && p is NeedInput),
    {
        if self.index >= stream.buffer.len() {
            if stream.closed {
                Err(Error::ConnectionClosed)
            } else {
                Ok(Pulled::NeedInput)
            }
        } else {
            Ok(Pulled::Ready(stream.buffer[self.index]))
        }
    }

    /// Returns the byte at the cursor and advances the cursor past it. The
    /// stream itself is not consumed.
    pub fn take_next_one(&mut self, stream: &Stream) -> (r: Result<Pulled<u8>, Error>)
        ensures
            old(self).index < stream.buffer@.len() ==> {
                &&& r matches Ok(p) && p == (Pulled::Ready(stream.buffer@[old(self).index as int]))
                &&& final(self).index == old(self).index + 1
            },
            old(self).index >= stream.buffer@.len() ==> *final(self) == *old(self),
            old(self).index >= stream.buffer@.len() && stream.closed ==> r == Err::<Pulled<u8>, Error>(Error::ConnectionClosed),
            old(self).index >= stream.buffer@.len() && !stream.closed ==> (r matches Ok(p) && p is NeedInput),
    {
        if self.index >= stream.buffer.len() {
            if stream.closed {
                Err(Error::ConnectionClosed)
            } else {
                Ok(Pulled::NeedInput)
            }
        } else {
            let b = stream.buffer[self.index];
            self.index = self.index + 1;
            Ok(Pulled::Ready(b))
        }
    }

    /// Advances the cursor by `n` without touching the stream.
    pub fn skip_next_n(&mut self, n: usize)
        requires
            old(self).index + n <= usize::MAX,
        ensures
            final(self).index == old(self).index + n,
    {
        self.index = self.index + n;
    }

    /// Advances the cursor by one without touching the stream.
    pub fn skip_next_one(&mut self)
        requires
            old(self).index < usize::MAX,
        ensures
            final(self).index == old(self).index + 1,
    {
        self.index = self.index + 1;
    }

    /// Advances the real stream's consumption point to the cursor: the bytes
    /// between the two are permanently consumed.
    pub fn commit(&self, stream: &mut Stream) -> (r: Result<(), Error>)
        requires
            old(stream).count + self.index <= usize::MAX,
        ensures
            final(stream).closed == old(stream).closed,
            self.index > old(stream).buffer@.len() ==> r == Err::<(), Error>(Error::InsufficientBuffer) && *final(stream) == *old(stream),
            self.index <= old(stream).buffer@.len() ==> {
                &&& r == Ok::<(), Error>(())
                &&& final(stream).buffer@ == old(stream).buffer@.skip(self.index as int)
                &&& final(stream).count == old(stream).count + self.index
            },
    {
        stream.skip_next_n(self.index)
    }

    /// How many bytes the cursor has advanced, without mutating the stream.
    pub fn rollback(&self) -> (r: usize)
        ensures
            r == self.index,
    {
        self.index
    }

    /// Removes and returns the bytes between the stream's consumption point
    /// and the cursor. The running count is not affected.
    pub fn take_all_vec(&self, stream: &mut Stream) -> (r: Result<Vec<u8>, Error>)
        ensures
            final(stream).closed == old(stream).closed,
            final(stream).count == old(stream).count,
            self.index > old(stream).buffer@.len() ==> r == Err::<Vec<u8>, Error>(Error::InsufficientBuffer) && *final(stream) == *old(stream),
            self.index <= old(stream).buffer@.len() ==> {
                &&& r matches Ok(v) && v@ == old(stream).buffer@.take(self.index as int)
                &&& final(stream).buffer@ == old(stream).buffer@.skip(self.index as int)
            },
    {
        if self.index > stream.buffer.len() {
            return Err(Error::InsufficientBuffer);
        }
        let out = stream.copy_front_n(self.index);
        stream.drop_front_n(self.index);
        Ok(out)
    }
}

} // verus!
