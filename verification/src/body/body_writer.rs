//! Writing a request body with its framing.

use vstd::prelude::*;

use crate::body::framing::{chunk_bytes, last_chunk, line_end, size_bytes, size_digit};
use crate::sink::{write_all, Sink};

verus! {

pub const MAX_DROP_PADDING: usize = 65536;

/// How the rest of a request body is written.
#[derive(Debug, Clone, Copy, PartialEq, Eq, Structural)]
pub enum BodyWriter {
    /// A body of known length, of which this many bytes are still owed.
    SizedWriter(usize),
    ChunkWriter,
    /// No body: finishing only flushes the head.
    EmptyWriter,
    /// A placeholder that accepts nothing.
    InvalidWriter,
}

/// The bytes of `buf` that a sized writer hands on: never more than it owes.
pub open spec fn within(buf: Seq<u8>, remain: nat) -> Seq<u8> {
    if buf.len() <= remain {
        buf
    } else {
        buf.take(remain as int)
    }
}

/// What finishing a body adds: the padding that a short body owes, as far as it is small, or the
/// end of a chunked body.
pub open spec fn closing_bytes(writer: BodyWriter) -> Seq<u8> {
    match writer {
        BodyWriter::SizedWriter(remain) => if remain <= MAX_DROP_PADDING {
            Seq::new(remain as nat, |i: int| 0u8)
        } else {
            Seq::empty()
        },
        BodyWriter::ChunkWriter => last_chunk(),
        BodyWriter::EmptyWriter | BodyWriter::InvalidWriter => Seq::empty(),
    }
}

/// The sequence of a chunk's size digits.
fn size_digits(n: usize) -> (r: Vec<u8>)
    ensures
        r@ == size_bytes(n as nat),
    decreases n,
{
    if n < 16 {
        let digit: u8 = size_digit_of(n as u8);
        let mut out: Vec<u8> = Vec::new();
        out.push(digit);
        proof {
            assert(out@ =~= seq![size_digit(n as nat)]);
        }
        out
    } else {
        let mut out = size_digits(n / 16);
        out.push(size_digit_of((n % 16) as u8));
        out
    }
}

fn size_digit_of(d: u8) -> (r: u8)
    requires
        d < 16,
    ensures
        r == size_digit(d as nat),
{
    if d < 10 {
        0x30 + d
    } else {
        0x41 + (d - 10)
    }
}

impl BodyWriter {
    /// Write a piece of the body; the result says how many of its bytes were accepted.
    pub fn write<S: Sink>(&mut self, out: &mut S, buf: &[u8]) -> (n: usize)
        requires
            *old(self) != BodyWriter::InvalidWriter,
            old(out).sink_wf(),
        ensures
            final(out).sink_wf(),
            final(out).receiving() == old(out).receiving(),
            match *old(self) {
                BodyWriter::SizedWriter(remain) => {
                    let offered = within(buf@, remain as nat);
                    &&& n == old(out).room_for(offered)
                    &&& n <= offered.len()
                    &&& offered.len() > 0 ==> n > 0
                    &&& final(out).accepted() == old(out).accepted() + offered.take(n as int)
                    &&& *final(self) == BodyWriter::SizedWriter((remain - n) as usize)
                },
                BodyWriter::ChunkWriter => {
                    &&& n == buf@.len()
                    &&& final(out).accepted() == old(out).accepted() + chunk_bytes(buf@)
                    &&& *final(self) == *old(self)
                },
                _ => n == 0 && *final(out) == *old(out) && *final(self) == *old(self),
            },
    {
        match *self {
            BodyWriter::SizedWriter(remain) => {
                let len: usize = if buf.len() <= remain {
                    buf.len()
                } else {
                    remain
                };
                let offered = vstd::slice::slice_subrange(buf, 0, len);
                proof {
                    assert(offered@ =~= within(buf@, remain as nat));
                }
                let n: usize = out.write(offered);
                *self = BodyWriter::SizedWriter(remain - n);
                n
            },
            BodyWriter::ChunkWriter => {
                let digits = size_digits(buf.len());
                let crlf: [u8; 2] = [0x0d, 0x0a];
                proof {
                    assert(crlf@ =~= line_end());
                }
                write_all(out, &digits);
                write_all(out, &crlf);
                write_all(out, buf);
                write_all(out, &crlf);
                proof {
                    assert(out.accepted() =~= old(out).accepted() + chunk_bytes(buf@));
                }
                buf.len()
            },
            _ => 0,
        }
    }

    /// Hand everything that was written to the transport.
    pub fn flush<S: Sink>(&self, out: &mut S)
        requires
            self != &BodyWriter::InvalidWriter,
            old(out).sink_wf(),
        ensures
            final(out).sink_wf(),
            final(out).receiving() == old(out).receiving(),
            final(out).accepted() == old(out).accepted(),
            final(out).settled(),
    {
        out.flush();
    }

    /// End the body and flush it.
    pub fn finish<S: Sink>(self, out: &mut S)
        requires
            old(out).sink_wf(),
        ensures
            final(out).sink_wf(),
            final(out).receiving() == old(out).receiving(),
            final(out).accepted() == old(out).accepted() + closing_bytes(self),
            self != BodyWriter::InvalidWriter ==> final(out).settled(),
            self == BodyWriter::InvalidWriter ==> *final(out) == *old(out),
    {
        match self {
            BodyWriter::SizedWriter(remain) => {
                let ghost padding = closing_bytes(self);
                if remain > 0 && remain <= MAX_DROP_PADDING {
                    let zero: [u8; 256] = [0u8; 256];
                    let mut left: usize = remain;
                    proof {
                        assert(out.accepted() + padding.take(0) =~= out.accepted());
                    }
                    while left > 0
                        invariant
                            left <= remain <= MAX_DROP_PADDING,
                            out.sink_wf(),
                            out.receiving() == old(out).receiving(),
                            padding == Seq::new(remain as nat, |i: int| 0u8),
                            zero@ == Seq::new(256, |i: int| 0u8),
                            out.accepted() == old(out).accepted() + padding.take(remain - left),
                        decreases left,
                    {
                        let amt: usize = if left < 256 {
                            left
                        } else {
                            256
                        };
                        let block = vstd::slice::slice_subrange(zero.as_slice(), 0, amt);
                        write_all(out, block);
                        proof {
                            assert(old(out).accepted() + padding.take(remain - left) + block@
                                =~= old(out).accepted() + padding.take(remain - left + amt));
                        }
                        left -= amt;
                    }
                    proof {
                        assert(padding.take(remain as int) =~= padding);
                    }
                } else {
                    proof {
                        assert(padding =~= Seq::<u8>::empty());
                        assert(out.accepted() + padding =~= out.accepted());
                    }
                }
                out.flush();
            },
            BodyWriter::ChunkWriter => {
                let end: [u8; 5] = [0x30, 0x0d, 0x0a, 0x0d, 0x0a];
                proof {
                    assert(end@ =~= last_chunk());
                }
                write_all(out, &end);
                out.flush();
            },
            BodyWriter::EmptyWriter => {
                proof {
                    assert(out.accepted() + closing_bytes(self) =~= out.accepted());
                }
                out.flush();
            },
            BodyWriter::InvalidWriter => {
                proof {
                    assert(out.accepted() + closing_bytes(self) =~= out.accepted());
                }
            },
        }
    }
}

} // verus!
