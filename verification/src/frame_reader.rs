//! Length-prefixed frames: `width_tag | length (width_tag bytes, big-endian) | payload`,
//! where the tag is the smallest of 1, 2 and 4 that holds the length.

use crate::bytes::{
    be_bytes, be_value, copy_range, lemma_be_bytes_len, lemma_be_value_bound,
    lemma_be_value_of_bytes, lemma_pow256_monotonic, lemma_pow256_values, spec_be_bytes,
    spec_be_value,
};
use vstd::prelude::*;

verus! {

/// The largest payload a frame can carry.
pub const MAX_FRAME_PAYLOAD: usize = 0xFFFF_FFFF;

/// One payload taken off a byte stream.
#[derive(Debug, PartialEq, Eq)]
pub struct Frame {
    pub bytes: Vec<u8>,
}

impl Frame {
    pub fn new(bytes: Vec<u8>) -> (r: Self)
        ensures
            r.bytes == bytes,
    {
        Frame { bytes }
    }
}

/// Number of length bytes used for a payload of `len` bytes.
pub open spec fn spec_width_tag(len: nat) -> nat {
    if len <= 0xFF {
        1
    } else if len <= 0xFFFF {
        2
    } else {
        4
    }
}

/// Whether `tag` is one of the three accepted widths.
pub open spec fn spec_is_width_tag(tag: u8) -> bool {
    tag == 1 || tag == 2 || tag == 4
}

/// The frame that carries `payload`.
pub open spec fn spec_encode_frame(payload: Seq<u8>) -> Seq<u8> {
    let width = spec_width_tag(payload.len());
    seq![width as u8] + spec_be_bytes(payload.len(), width) + payload
}

/// What the head of a receive buffer amounts to.
pub enum FrameParse {
    /// The buffer ends before the frame does: no bytes, or part of a well-formed frame.
    Incomplete,
    /// The first byte is no width tag.
    BadWidthTag,
    /// A whole frame: its payload, and the bytes that follow it.
    Complete { payload: Seq<u8>, rest: Seq<u8> },
}

/// Reads one frame off the front of `buffer`.
pub open spec fn spec_parse_frame(buffer: Seq<u8>) -> FrameParse {
    if buffer.len() == 0 {
        FrameParse::Incomplete
    } else if !spec_is_width_tag(buffer[0]) {
        FrameParse::BadWidthTag
    } else if buffer.len() < 1 + buffer[0] {
        FrameParse::Incomplete
    } else {
        let header = 1 + buffer[0] as int;
        let len = spec_be_value(buffer.subrange(1, header)) as int;
        if buffer.len() < header + len {
            FrameParse::Incomplete
        } else {
            FrameParse::Complete {
                payload: buffer.subrange(header, header + len),
                rest: buffer.skip(header + len),
            }
        }
    }
}

/// A written frame reads back as its payload, whatever follows it in the stream.
pub proof fn lemma_frame_round_trip(payload: Seq<u8>, rest: Seq<u8>)
    requires
        payload.len() <= 0xFFFF_FFFF,
    ensures
        spec_parse_frame(spec_encode_frame(payload) + rest) == (FrameParse::Complete {
            payload,
            rest,
        }),
{
    let width = spec_width_tag(payload.len());
    let digits = spec_be_bytes(payload.len(), width);
    let buffer = spec_encode_frame(payload) + rest;
    lemma_be_bytes_len(payload.len(), width);
    lemma_pow256_values();
    lemma_be_value_of_bytes(payload.len(), width);
    let header = 1 + width as int;
    assert(buffer[0] == width as u8);
    assert(buffer.subrange(1, header) =~= digits);
    assert(buffer.subrange(header, header + payload.len()) =~= payload);
    assert(buffer.skip(header + payload.len()) =~= rest);
}

/// The wire form of one frame around `bytes`.
pub fn write_frame(bytes: Vec<u8>) -> (r: Vec<u8>)
    requires
        bytes.len() <= MAX_FRAME_PAYLOAD,
    ensures
        r@ == spec_encode_frame(bytes@),
{
    let len: usize = bytes.len();
    let width: usize = if len <= 0xFF {
        1
    } else if len <= 0xFFFF {
        2
    } else {
        4
    };
    let mut r: Vec<u8> = Vec::new();
    r.push(width as u8);
    let mut digits = be_bytes(len as u64, width);
    r.append(&mut digits);
    let mut payload = bytes;
    r.append(&mut payload);
    assert(r@ =~= spec_encode_frame(bytes@));
    r
}

/// What `read_frame_size` found at the head of the buffer.
#[derive(Debug, Clone, Copy, PartialEq, Eq)]
pub enum FrameSize {
    /// The length prefix has not arrived in full.
    Incomplete,
    /// The first byte is no width tag: the stream cannot be read further.
    BadWidthTag,
    /// A length prefix of `header` bytes announcing `payload` bytes.
    Known { header: usize, payload: usize },
}

/// What `read_frame` took off the buffer.
#[derive(Debug, PartialEq, Eq)]
pub enum FrameRead {
    /// More bytes are needed; the buffer is as it was.
    Incomplete,
    /// The first byte is no width tag; the buffer is as it was.
    BadWidthTag,
    /// One frame, removed from the buffer.
    Complete(Frame),
}

/// How a stream ended, judged by what was left unread.
#[derive(Debug, Clone, Copy, PartialEq, Eq)]
pub enum StreamEnd {
    /// Between frames: the peer closed the stream cleanly.
    Clean,
    /// Inside a frame: the stream broke.
    MidFrame,
}

/// Bytes received from a stream and not yet handed out as frames.
pub struct FrameBuffer {
    buffer: Vec<u8>,
}

impl View for FrameBuffer {
    type V = Seq<u8>;

    closed spec fn view(&self) -> Seq<u8> {
        self.buffer@
    }
}

impl FrameBuffer {
    pub fn new() -> (r: Self)
        ensures
            r@ == Seq::<u8>::empty(),
    {
        FrameBuffer { buffer: Vec::new() }
    }

    /// Number of buffered bytes.
    pub fn len(&self) -> (r: usize)
        ensures
            r == self@.len(),
    {
        self.buffer.len()
    }

    /// Tells how the stream ended, if it ends now. Frames that are whole in the buffer
    /// are to be read first.
    pub fn end_of_stream(&self) -> (r: StreamEnd)
        ensures
            r == StreamEnd::Clean <==> self@.len() == 0,
    {
        if self.buffer.len() == 0 {
            StreamEnd::Clean
        } else {
            StreamEnd::MidFrame
        }
    }

    /// Adds received bytes at the end of the buffer.
    pub fn extend(&mut self, received: &[u8])
        ensures
            final(self)@ == old(self)@ + received@,
    {
        self.buffer.extend_from_slice(received);
    }

    /// Decodes the length prefix at the head of the buffer.
    pub fn read_frame_size(&self) -> (r: FrameSize)
        ensures
            match r {
                FrameSize::Incomplete => self@.len() == 0 || (spec_is_width_tag(self@[0])
                    && self@.len() < 1 + self@[0]),
                FrameSize::BadWidthTag => self@.len() > 0 && !spec_is_width_tag(self@[0]),
                FrameSize::Known { header, payload } => {
                    &&& self@.len() > 0
                    &&& spec_is_width_tag(self@[0])
                    &&& header == 1 + self@[0]
                    &&& header <= self@.len()
                    &&& payload == spec_be_value(self@.subrange(1, header as int))
                },
            },
    {
        if self.buffer.len() == 0 {
            return FrameSize::Incomplete;
        }
        let tag: u8 = self.buffer[0];
        if !(tag == 1 || tag == 2 || tag == 4) {
            return FrameSize::BadWidthTag;
        }
        let width: usize = tag as usize;
        if self.buffer.len() < 1 + width {
            return FrameSize::Incomplete;
        }
        let len: u64 = be_value(&self.buffer, 1, width);
        proof {
            let digits = self.buffer@.subrange(1, 1 + width);
            lemma_be_value_bound(digits);
            lemma_pow256_values();
            lemma_pow256_monotonic(width as nat, 4);
        }
        FrameSize::Known { header: 1 + width, payload: len as usize }
    }

    /// Takes one frame off the head of the buffer, if a whole one is there.
    pub fn read_frame(&mut self) -> (r: FrameRead)
        ensures
            match spec_parse_frame(old(self)@) {
                FrameParse::Incomplete => r == FrameRead::Incomplete && final(self)@ == old(self)@,
                FrameParse::BadWidthTag => r == FrameRead::BadWidthTag && final(self)@ == old(
                    self,
                )@,
                FrameParse::Complete { payload, rest } => {
                    &&& r matches FrameRead::Complete(frame)
                    &&& frame.bytes@ == payload
                    &&& final(self)@ == rest
                },
            },
    {
        match self.read_frame_size() {
            FrameSize::Incomplete => FrameRead::Incomplete,
            FrameSize::BadWidthTag => FrameRead::BadWidthTag,
            FrameSize::Known { header, payload } => {
                if self.buffer.len() - header < payload {
                    return FrameRead::Incomplete;
                }
                let end: usize = header + payload;
                let bytes = copy_range(&self.buffer, header, end);
                let rest = copy_range(&self.buffer, end, self.buffer.len());
                assert(rest@ =~= self.buffer@.skip(end as int));
                self.buffer = rest;
                FrameRead::Complete(Frame::new(bytes))
            },
        }
    }
}

} // verus!
