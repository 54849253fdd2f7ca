//! Length-prefixed wire format: a little-endian 32-bit size that counts
//! itself, followed by `size - 4` bytes of opaque payload.

use vstd::prelude::*;

verus! {

/// Bytes taken by the size header.
pub const HEADER_SIZE: u32 = 4;

/// Largest frame accepted, header included.
pub const MAX_FRAME_SIZE: u32 = 512;

/// The unsigned value of four little-endian bytes.
pub open spec fn le_u32(b: Seq<u8>) -> int
    recommends
        b.len() == 4,
{
    b[0] as int + 256 * (b[1] as int) + 65536 * (b[2] as int) + 16777216 * (b[3] as int)
}

/// The signed (two's complement) value of four little-endian bytes.
pub open spec fn le_i32(b: Seq<u8>) -> int
    recommends
        b.len() == 4,
{
    if le_u32(b) >= 0x8000_0000 {
        le_u32(b) - 0x1_0000_0000
    } else {
        le_u32(b)
    }
}

/// The four little-endian bytes of a value below 2^32.
pub open spec fn le_bytes(n: nat) -> Seq<u8> {
    seq![
        (n % 256) as u8,
        ((n / 256) % 256) as u8,
        ((n / 65536) % 256) as u8,
        ((n / 16777216) % 256) as u8,
    ]
}

/// Why a declared frame size is refused.
#[derive(Clone, Copy, Debug, PartialEq, Eq, Structural)]
pub enum FrameError {
    /// The declared size exceeds the largest frame.
    TooLarge(i32),
    /// The declared size is smaller than the header itself.
    TooSmall(i32),
}

/// The verdict on a declared size: `None` when it lies within bounds.
pub open spec fn size_error(size: int) -> Option<FrameError> {
    if size > MAX_FRAME_SIZE {
        Some(FrameError::TooLarge(size as i32))
    } else if size < HEADER_SIZE {
        Some(FrameError::TooSmall(size as i32))
    } else {
        None
    }
}

/// Reads the declared size of a frame from its four header bytes.
pub fn decode_header(header: &[u8]) -> (size: i32)
    requires
        header@.len() == 4,
    ensures
        size as int == le_i32(header@),
{
    let u: u32 = header[0] as u32 + 256 * (header[1] as u32) + 65536 * (header[2] as u32)
        + 16777216 * (header[3] as u32);
    if u >= 0x8000_0000 {
        (u as i64 - 0x1_0000_0000i64) as i32
    } else {
        u as i32
    }
}

/// Checks a declared size against the frame bounds and gives the payload
/// length that follows the header.
pub fn check_size(size: i32) -> (r: Result<usize, FrameError>)
    ensures
        match size_error(size as int) {
            Some(e) => r == Err::<usize, FrameError>(e),
            None => r == Ok::<usize, FrameError>((size - HEADER_SIZE) as usize),
        },
{
    if size > MAX_FRAME_SIZE as i32 {
        Err(FrameError::TooLarge(size))
    } else if size < HEADER_SIZE as i32 {
        Err(FrameError::TooSmall(size))
    } else {
        Ok((size - HEADER_SIZE as i32) as usize)
    }
}

/// Writes a value below 2^32 as four little-endian bytes.
pub fn encode_header(n: u32) -> (r: Vec<u8>)
    ensures
        r@ == le_bytes(n as nat),
{
    let mut r: Vec<u8> = Vec::new();
    r.push((n % 256) as u8);
    r.push(((n / 256) % 256) as u8);
    r.push(((n / 65536) % 256) as u8);
    r.push(((n / 16777216) % 256) as u8);
    assert(r@ =~= le_bytes(n as nat));
    r
}

/// Frames a payload: its total size as header, then the payload bytes.
/// Gives `None` when the frame would exceed the largest frame size.
pub fn encode_frame(payload: &[u8]) -> (r: Option<Vec<u8>>)
    ensures
        payload@.len() + HEADER_SIZE <= MAX_FRAME_SIZE <==> r.is_some(),
        r matches Some(f) ==> f@ == le_bytes((payload@.len() + HEADER_SIZE) as nat) + payload@,
{
    if payload.len() > (MAX_FRAME_SIZE - HEADER_SIZE) as usize {
        return None;
    }
    let mut f = encode_header(payload.len() as u32 + HEADER_SIZE);
    let ghost head = f@;
    let mut i: usize = 0;
    while i < payload.len()
        invariant
            i <= payload@.len(),
            f@ == head + payload@.subrange(0, i as int),
        decreases payload@.len() - i,
    {
        f.push(payload[i]);
        i = i + 1;
        assert(f@ =~= head + payload@.subrange(0, i as int));
    }
    assert(payload@.subrange(0, i as int) =~= payload@);
    Some(f)
}

/// A header written for a size within bounds reads back as that size.
pub proof fn lemma_header_round_trip(n: nat)
    requires
        n < 0x8000_0000,
    ensures
        le_i32(le_bytes(n)) == n,
{
    let b = le_bytes(n);
    assert(le_u32(b) == n) by (nonlinear_arith)
        requires
            b[0] as int == n % 256,
            b[1] as int == (n / 256) % 256,
            b[2] as int == (n / 65536) % 256,
            b[3] as int == (n / 16777216) % 256,
            n < 0x8000_0000,
    ;
}

/// The size declared by the header at the front of buffered bytes.
pub open spec fn declared_size(p: Seq<u8>) -> int {
    le_i32(p.subrange(0, 4))
}

/// A frame of total size within bounds, followed by whatever bytes, is cut
/// off the front exactly as it was written, and leaves what follows it.
pub proof fn lemma_frame_passes_intact(payload: Seq<u8>, rest: Seq<u8>)
    requires
        payload.len() + HEADER_SIZE <= MAX_FRAME_SIZE,
    ensures
        ({
            let f = le_bytes((payload.len() + HEADER_SIZE) as nat) + payload;
            let p = f + rest;
            &&& declared_size(p) == f.len()
            &&& size_error(f.len() as int) is None
            &&& p.subrange(0, declared_size(p)) == f
            &&& p.subrange(declared_size(p), p.len() as int) == rest
        }),
{
    let n = (payload.len() + HEADER_SIZE) as nat;
    let f = le_bytes(n) + payload;
    let p = f + rest;
    lemma_header_round_trip(n);
    assert(p.subrange(0, 4) =~= le_bytes(n));
    assert(p.subrange(0, f.len() as int) =~= f);
    assert(p.subrange(f.len() as int, p.len() as int) =~= rest);
}

/// A declared size is refused exactly when it exceeds the largest frame or
/// is smaller than the header.
pub proof fn lemma_size_bounds(size: int)
    ensures
        size_error(size) is Some <==> (size > MAX_FRAME_SIZE || size < HEADER_SIZE),
{
}

/// What the decoder found at the front of its buffered bytes.
#[derive(Debug, PartialEq, Eq)]
pub enum DecodeStep {
    /// No complete frame is buffered yet.
    NeedMore,
    /// A complete frame, header included, exactly as received.
    Frame(Vec<u8>),
    /// The header declares a size out of bounds; the connection must close.
    Violation(FrameError),
}

/// Collects bytes as they arrive from a connection and cuts them into frames.
pub struct FrameDecoder {
    pending: Vec<u8>,
}

impl View for FrameDecoder {
    type V = Seq<u8>;

    /// The bytes received and not yet handed out as a frame.
    closed spec fn view(&self) -> Seq<u8> {
        self.pending@
    }
}

impl FrameDecoder {
    pub fn new() -> (d: FrameDecoder)
        ensures
            d@ == Seq::<u8>::empty(),
    {
        FrameDecoder { pending: Vec::new() }
    }

    /// Number of bytes buffered.
    pub fn buffered(&self) -> (n: usize)
        ensures
            n == self@.len(),
    {
        self.pending.len()
    }

    /// Appends bytes read from the connection.
    pub fn push(&mut self, chunk: &[u8])
        ensures
            final(self)@ == old(self)@ + chunk@,
    {
        let ghost start = self@;
        let mut i: usize = 0;
        while i < chunk.len()
            invariant
                i <= chunk@.len(),
                self@ == start + chunk@.subrange(0, i as int),
            decreases chunk@.len() - i,
        {
            self.pending.push(chunk[i]);
            i = i + 1;
            assert(self@ =~= start + chunk@.subrange(0, i as int));
        }
        assert(chunk@.subrange(0, i as int) =~= chunk@);
    }

    /// Takes the next frame off the front of the buffered bytes, if one is
    /// complete. A header out of bounds is reported and nothing is consumed.
    pub fn next_frame(&mut self) -> (r: DecodeStep)
        ensures
            old(self)@.len() < HEADER_SIZE ==> r == DecodeStep::NeedMore && final(self)@ == old(self)@,
            old(self)@.len() >= HEADER_SIZE ==> match size_error(declared_size(old(self)@)) {
                Some(e) => r == DecodeStep::Violation(e) && final(self)@ == old(self)@,
                None => if old(self)@.len() < declared_size(old(self)@) {
                    r == DecodeStep::NeedMore && final(self)@ == old(self)@
                } else {
                    &&& r matches DecodeStep::Frame(f)
                    &&& f@ == old(self)@.subrange(0, declared_size(old(self)@))
                    &&& final(self)@ == old(self)@.subrange(declared_size(old(self)@), old(self)@.len() as int)
                },
            },
    {
        if self.pending.len() < HEADER_SIZE as usize {
            return DecodeStep::NeedMore;
        }
        let header = vec![self.pending[0], self.pending[1], self.pending[2], self.pending[3]];
        assert(header@ =~= self.pending@.subrange(0, 4));
        let size = decode_header(header.as_slice());
        match check_size(size) {
            Err(e) => DecodeStep::Violation(e),
            Ok(_) => {
                let total = size as usize;
                if self.pending.len() < total {
                    DecodeStep::NeedMore
                } else {
                    let mut frame = self.pending.split_off(0);
                    self.pending = frame.split_off(total);
                    DecodeStep::Frame(frame)
                }
            }
        }
    }
}

} // verus!
