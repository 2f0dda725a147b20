//! The request-dispatch core of a small asynchronous network server: a
//! buffered byte stream with transactional lookahead, a generic trie-based
//! incremental matcher for wire tokens, a router built on it, and the
//! decision core of a fixed-size worker pool. Network reads, timers and
//! schedulers live outside: the stream is fed received chunks and every
//! operation that would block reports `NeedInput` instead.

use vstd::prelude::*;

pub mod pool;
pub mod route;
pub mod stream;
pub mod trie;

verus! {

/// The error taxonomy shared by the stream, trie, router and header layers.
#[derive(Debug, PartialEq, Eq)]
pub enum Error {
    /// A matcher was invoked with a zero-length key.
    EmptyKey,
    /// A trie walk found no edge for the next byte.
    NoMatch,
    /// The path matched but no handler is registered for the method.
    MethodNotAllowed,
    /// A (path, method) pair was registered twice.
    MethodAlreadyRegistered,
    /// A byte-keyed header was inserted under an existing key.
    DuplicateKey,
    /// A positional header insert skipped the next sequential index.
    IndexOutOfSequence,
    /// A skip or drain asked for more bytes than are backlogged.
    InsufficientBuffer,
    /// The peer closed the connection with no bytes available.
    ConnectionClosed,
    /// Any other transport failure.
    Io,
    /// A generic diagnostic carrying a human-readable message.
    Content(String),
}

/// How an external decoder interprets a header value's payload bytes; the
/// core itself only moves bytes.
#[derive(Clone, Copy, Debug, PartialEq, Eq, Structural)]
pub enum HeaderValueType {
    Integer,
    ByteArray,
    Utf8String,
    Custom,
}

/// How an external decoder interprets body payload bytes.
#[derive(Clone, Copy, Debug, PartialEq, Eq, Structural)]
pub enum BodyType {
    ByteArray,
    Utf8String,
    Custom,
}

/// Per-registration options selecting the external decoders.
#[derive(Clone, Copy, Debug, PartialEq, Eq, Structural)]
pub struct RegisterOptions {
    pub header_value_type: HeaderValueType,
    pub body_type: BodyType,
}

impl Default for RegisterOptions {
    fn default() -> (r: Self)
        ensures
            r.header_value_type == HeaderValueType::Utf8String,
            r.body_type == BodyType::Utf8String,
    {
        Self { header_value_type: HeaderValueType::Utf8String, body_type: BodyType::Utf8String }
    }
}

/// Shared mutable state a registration can hand to its handlers; the payload
/// type is the caller's.
pub struct Context<D> {
    pub data: D,
}

/// An HTTP request method.
#[derive(Clone, Copy, Debug, PartialEq, Eq, Hash, Structural)]
pub enum Method {
    Post,
    Put,
    Get,
    Delete,
    Unknown,
}

impl Default for Method {
    fn default() -> (r: Self)
        ensures
            r == Method::Unknown,
    {
        Method::Unknown
    }
}

/// A protocol version token, collected byte by byte off the wire.
#[derive(Debug)]
pub struct Version(pub Vec<u8>);

impl Version {
    /// Appends one byte of the version token.
    pub fn push(&mut self, v: u8)
        ensures
            final(self).0@ == old(self).0@.push(v),
    {
        self.0.push(v);
    }

    /// The collected version bytes.
    pub fn version(&self) -> (r: &[u8])
        ensures
            r@ == self.0@,
    {
        self.0.as_slice()
    }

    pub fn new() -> (r: Self)
        ensures
            r.0@ == Seq::<u8>::empty(),
    {
        Self(new_bytearray())
    }
}

impl Default for Version {
    fn default() -> (r: Self)
        ensures
            r.0@ == Seq::<u8>::empty(),
    {
        Version::new()
    }
}

/// One header value; `Custom` carries a caller-defined payload.
pub enum HeaderValue<D> {
    Integer(u64),
    ByteArray(Vec<u8>),
    Utf8String(String),
    Custom(D),
}

/// The header collection handed to handlers. Well-known headers live in a
/// dense, append-only positional index; arbitrary header names in a
/// byte-keyed map with unique keys.
pub struct Headers<D> {
    pub indexs: Vec<HeaderValue<D>>,
    pub next_index: usize,
    pub bytearrays: Vec<(Vec<u8>, HeaderValue<D>)>,
}

impl<D> Headers<D> {
    /// The value stored under a byte key, scanning insertion order.
    pub open spec fn key_lookup(s: Seq<(Vec<u8>, HeaderValue<D>)>, k: Seq<u8>) -> Option<
        HeaderValue<D>,
    >
        decreases s.len(),
    {
        if s.len() == 0 {
            None
        } else if s[0].0@ == k {
            Some(s[0].1)
        } else {
            Self::key_lookup(s.skip(1), k)
        }
    }

    /// The dense index always points one past the values stored so far.
    pub open spec fn wf(&self) -> bool {
        self.next_index == self.indexs@.len()
    }

    proof fn lemma_key_lookup_push(
        s: Seq<(Vec<u8>, HeaderValue<D>)>,
        p: (Vec<u8>, HeaderValue<D>),
        q: Seq<u8>,
    )
        ensures
            Self::key_lookup(s.push(p), q) == (match Self::key_lookup(s, q) {
                Some(x) => Some(x),
                None => if p.0@ == q {
                    Some(p.1)
                } else {
                    None
                },
            }),
        decreases s.len(),
    {
        if s.len() == 0 {
            assert(s.push(p)[0] == p);
            assert(s.push(p).skip(1) =~= Seq::<(Vec<u8>, HeaderValue<D>)>::empty());
            assert(Self::key_lookup(s.push(p).skip(1), q) is None);
        } else {
            assert(s.push(p)[0] == s[0]);
            assert(s.push(p).skip(1) =~= s.skip(1).push(p));
            Self::lemma_key_lookup_push(s.skip(1), p, q);
        }
    }

    /// Stores a value under a byte key; an existing key is kept, not
    /// overwritten, and reported as `DuplicateKey`.
    pub fn insert_bytearray(&mut self, key: Vec<u8>, value: HeaderValue<D>) -> (r: Result<
        (),
        Error,
    >)
        ensures
            final(self).indexs == old(self).indexs,
            final(self).next_index == old(self).next_index,
            match Self::key_lookup(old(self).bytearrays@, key@) {
                Some(_) => r == Err::<(), Error>(Error::DuplicateKey) && final(self).bytearrays
                    == old(self).bytearrays,
                None => {
                    &&& r == Ok::<(), Error>(())
                    &&& final(self).bytearrays@ == old(self).bytearrays@.push((key, value))
                    &&& Self::key_lookup(final(self).bytearrays@, key@) == Some(value)
                    &&& forall|q: Seq<u8>|
                        q != key@ ==> Self::key_lookup(final(self).bytearrays@, q)
                            == Self::key_lookup(old(self).bytearrays@, q)
                },
            },
    {
        if self.contains_bytearray_key(key.as_slice()) {
            return Err(Error::DuplicateKey);
        }
        let ghost s = self.bytearrays@;
        let ghost p = (key, value);
        self.bytearrays.push((key, value));
        proof {
            assert forall|q: Seq<u8>| true implies Self::key_lookup(s.push(p), q) == (
            match Self::key_lookup(s, q) {
                Some(x) => Some(x),
                None => if p.0@ == q {
                    Some(p.1)
                } else {
                    None
                },
            }) by {
                Self::lemma_key_lookup_push(s, p, q);
            }
        }
        Ok(())
    }

    /// Whether a byte key is already stored.
    fn contains_bytearray_key(&self, key: &[u8]) -> (r: bool)
        ensures
            r == (Self::key_lookup(self.bytearrays@, key@) is Some),
    {
        let ghost all = self.bytearrays@;
        let mut j: usize = 0;
        proof {
            assert(all.skip(0) =~= all);
        }
        while j < self.bytearrays.len()
            invariant
                j <= all.len(),
                all == self.bytearrays@,
                Self::key_lookup(all, key@) == Self::key_lookup(all.skip(j as int), key@),
            decreases all.len() - j,
        {
            proof {
                assert(all.skip(j as int)[0] == all[j as int]);
            }
            if bytes_eq(self.bytearrays[j].0.as_slice(), key) {
                return true;
            }
            j = j + 1;
            proof {
                assert(all.skip(j - 1).skip(1) =~= all.skip(j as int));
            }
        }
        false
    }

    /// The value stored under a byte key.
    pub fn get_bytearray(&self, key: &[u8]) -> (r: Option<&HeaderValue<D>>)
        ensures
            match Self::key_lookup(self.bytearrays@, key@) {
                Some(v) => r matches Some(rv) && *rv == v,
                None => r is None,
            },
    {
        let ghost all = self.bytearrays@;
        let mut j: usize = 0;
        proof {
            assert(all.skip(0) =~= all);
        }
        while j < self.bytearrays.len()
            invariant
                j <= all.len(),
                all == self.bytearrays@,
                Self::key_lookup(all, key@) == Self::key_lookup(all.skip(j as int), key@),
            decreases all.len() - j,
        {
            proof {
                assert(all.skip(j as int)[0] == all[j as int]);
            }
            if bytes_eq(self.bytearrays[j].0.as_slice(), key) {
                return Some(&self.bytearrays[j].1);
            }
            j = j + 1;
            proof {
                assert(all.skip(j - 1).skip(1) =~= all.skip(j as int));
            }
        }
        None
    }

    /// Appends a value at the next sequential position of the dense index;
    /// any other position is refused.
    pub fn push_index(&mut self, key: usize, value: HeaderValue<D>) -> (r: Result<(), Error>)
        requires
            old(self).wf(),
        ensures
            final(self).wf(),
            final(self).bytearrays == old(self).bytearrays,
            key != old(self).next_index ==> r == Err::<(), Error>(Error::IndexOutOfSequence)
                && final(self).indexs == old(self).indexs && final(self).next_index == old(
                self,
            ).next_index,
            key == old(self).next_index ==> {
                &&& r == Ok::<(), Error>(())
                &&& final(self).indexs@ == old(self).indexs@.push(value)
                &&& final(self).next_index == old(self).next_index + 1
            },
    {
        if key != self.next_index {
            return Err(Error::IndexOutOfSequence);
        }
        self.indexs.push(value);
        self.next_index = self.indexs.len();
        Ok(())
    }

    /// The value at a dense-index position, or `None` out of range.
    pub fn get_index(&self, key: &usize) -> (r: Option<&HeaderValue<D>>)
        ensures
            *key < self.indexs@.len() ==> (r matches Some(v) && *v == self.indexs@[*key as int]),
            *key >= self.indexs@.len() ==> r is None,
    {
        if *key >= self.indexs.len() {
            return None;
        }
        Some(&self.indexs[*key])
    }

    pub fn new() -> (r: Self)
        ensures
            r.wf(),
            r.indexs@ == Seq::<HeaderValue<D>>::empty(),
            r.next_index == 0,
            r.bytearrays@ == Seq::<(Vec<u8>, HeaderValue<D>)>::empty(),
    {
        Self { indexs: Vec::new(), next_index: 0, bytearrays: Vec::new() }
    }
}

impl<D> Default for Headers<D> {
    fn default() -> (r: Self)
        ensures
            r.wf(),
            r.indexs@.len() == 0,
            r.next_index == 0,
            r.bytearrays@.len() == 0,
    {
        Headers::new()
    }
}

/// Whether two byte slices hold the same bytes.
pub fn bytes_eq(a: &[u8], b: &[u8]) -> (r: bool)
    ensures
        r == (a@ == b@),
{
    if a.len() != b.len() {
        proof {
            assert(a@.len() != b@.len());
        }
        return false;
    }
    let mut i: usize = 0;
    while i < a.len()
        invariant
            i <= a@.len(),
            a@.len() == b@.len(),
            forall|j: int| 0 <= j < i ==> a@[j] == b@[j],
        decreases a@.len() - i,
    {
        if a[i] != b[i] {
            return false;
        }
        i = i + 1;
    }
    proof {
        assert(a@ =~= b@);
    }
    true
}

/// A request body; `Custom` carries a caller-defined payload.
pub enum Body<D> {
    ByteArray(Vec<u8>),
    Utf8String(String),
    Custom(D),
}

/// The parsed request line and headers handed to a handler.
pub struct RequestHeader<D> {
    pub method: Method,
    pub version: Version,
    pub headers: Box<Headers<D>>,
}

/// A parsed request: its header structure and an optional decoded body.
pub struct Request<D> {
    pub header: Box<RequestHeader<D>>,
    pub body: Option<Body<D>>,
}

/// The status line of a response.
pub struct ResponseCaptial {
    pub version: Vec<u8>,
    pub status: u16,
    pub status_desc: Vec<u8>,
}

impl Default for ResponseCaptial {
    fn default() -> (r: Self)
        ensures
            r.version@ == seq![72u8, 84u8, 84u8, 80u8, 47u8, 49u8, 46u8, 49u8],
            r.status == 200,
            r.status_desc@ == seq![79u8, 75u8],
    {
        let version = vec![72u8, 84u8, 84u8, 80u8, 47u8, 49u8, 46u8, 49u8];
        let status_desc = vec![79u8, 75u8];
        Self { version, status: 200, status_desc }
    }
}

/// Raw header bytes a caller has already laid out, passed through unchecked.
pub struct ResponseUncheckHeaders {
    pub bytes: Vec<u8>,
}

impl Default for ResponseUncheckHeaders {
    fn default() -> (r: Self)
        ensures
            r.bytes@ == Seq::<u8>::empty(),
    {
        Self { bytes: Vec::new() }
    }
}

/// Everything a handler produces for the connection's writable half.
pub struct ResponseContent<D> {
    pub captial: ResponseCaptial,
    pub headers: ResponseUncheckHeaders,
    pub body: Body<D>,
}

impl<D> Default for ResponseContent<D> {
    fn default() -> (r: Self)
        ensures
            r.captial.status == 200,
            r.headers.bytes@.len() == 0,
            r.body matches Body::ByteArray(b) && b@.len() == 0,
    {
        Self {
            captial: ResponseCaptial::default(),
            headers: ResponseUncheckHeaders::default(),
            body: Body::ByteArray(Vec::new()),
        }
    }
}

/// Creates an empty byte array with no reserved space.
pub fn new_none_bytearray() -> (r: Vec<u8>)
    ensures
        r@ == Seq::<u8>::empty(),
{
    Vec::with_capacity(0)
}

/// Creates an empty byte array.
pub fn new_bytearray() -> (r: Vec<u8>)
    ensures
        r@ == Seq::<u8>::empty(),
{
    Vec::new()
}

} // verus!
