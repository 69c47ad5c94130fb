//! Pull-based streaming decoder over a buffered byte source.
//!
//! [`BufReadDecoder`] wraps any [`std::io::BufRead`] and decodes its bytes
//! incrementally.  Strict mode ([`BufReadDecoder::next_strict`]) surfaces
//! every malformed sequence as a distinct error; lossy mode
//! ([`BufReadDecoder::next_lossy`] and
//! [`BufReadDecoder::read_to_string_lossy`]) substitutes U+FFFD instead and
//! only ever fails on a genuine I/O error.
use vstd::prelude::*;

use crate::bytes_as_str;
use crate::decode;
use crate::lemma_chars_of_bytes;
use crate::lossy::LossyDecoder;
use crate::lossy::StringSink;
use crate::lossy::TextSink;
use crate::scan::classify;
use crate::scan::lemma_classify_malformed_suffix;
use crate::scan::lemma_malformed_span_prefix;
use crate::scan::lossy_decode;
use crate::scan::replacement;
use crate::scan::valid_len_of;
use crate::DecodeError;
use crate::Incomplete;
use crate::REPLACEMENT_CHARACTER;
use vstd::slice::slice_subrange;
use vstd::slice::slice_to_vec;
use vstd::string::StringSliceAdditionalSpecFns;
use vstd::utf8::encode_utf8;

verus! {

#[verifier::external_type_specification]
#[verifier::external_body]
pub struct ExIoError(std::io::Error);

/// Error from a strict decoding step.
pub enum BufReadDecoderError {
    /// Bytes that do not continue as well-formed UTF-8 at their position in
    /// the stream: a malformed span, or a truncated sequence cut off by the
    /// end of the source.
    InvalidByteSequence(Vec<u8>),
    /// I/O error from the underlying byte source.
    Io(std::io::Error),
}

/// Relies on `BufRead::fill_buf`: returns a copy of the reader's current
/// buffer contents, filling the buffer first if it is empty.  An empty chunk
/// means the source is exhausted.  Nothing can be promised of the bytes
/// themselves: they come from the outside world.
#[verifier::external_body]
fn fill_chunk<R: std::io::BufRead>(reader: &mut R) -> (r: Result<Vec<u8>, std::io::Error>) {
    match reader.fill_buf() {
        Ok(buf) => Ok(buf.to_vec()),
        Err(e) => Err(e),
    }
}

/// Relies on `BufRead::consume`: marks `amt` bytes of the current buffer as
/// read, so the next fill returns what follows them.
#[verifier::external_body]
fn consume_chunk<R: std::io::BufRead>(reader: &mut R, amt: usize) {
    reader.consume(amt)
}

/// Relies on `Read::read_to_end`: pulls the source to exhaustion and returns
/// every byte it yielded, in order.  Nothing can be promised of the bytes
/// themselves: they come from the outside world.
#[verifier::external_body]
fn read_all<R: std::io::BufRead>(reader: &mut R) -> (r: Result<Vec<u8>, std::io::Error>) {
    let mut buf = Vec::new();
    match std::io::Read::read_to_end(reader, &mut buf) {
        Ok(count) => Ok(buf),
        Err(e) => Err(e),
    }
}

/// A short span of bytes that no decoder can make text of on its own: it has
/// no well-formed prefix and is not itself well-formed.
pub open spec fn undecodable_span(b: Seq<u8>) -> bool {
    &&& 1 <= b.len() <= 3
    &&& valid_len_of(b) == 0
    &&& !(classify(b) is WellFormed)
}

/// A pull-based streaming decoder over a buffered byte source.
pub struct BufReadDecoder<R> {
    reader: R,
    chunk: Vec<u8>,
    pos: usize,
    incomplete: Incomplete,
    consumed: Ghost<Seq<u8>>,
}

impl<R: std::io::BufRead> BufReadDecoder<R> {
    /// The decoder's invariant: the read position stays inside the retained
    /// chunk and the continuation buffer is empty or holds a pending
    /// truncated sequence.
    pub closed spec fn wf(self) -> bool {
        &&& self.pos <= self.chunk@.len()
        &&& self.incomplete.well_formed()
        &&& (self.incomplete.bytes().len() == 0 || self.incomplete.is_pending())
    }

    /// Bytes pulled from the source but not yet decided: the pending
    /// continuation bytes followed by the unread tail of the current chunk.
    pub closed spec fn pending_input(self) -> Seq<u8> {
        self.incomplete.bytes() + self.chunk@.skip(self.pos as int)
    }

    /// Bytes decided so far: every byte covered by text handed out or by a
    /// reported invalid sequence, in stream order.
    pub closed spec fn consumed_bytes(self) -> Seq<u8> {
        self.consumed@
    }

    /// Wrap a buffered byte source.
    pub fn new(buf_read: R) -> (r: BufReadDecoder<R>)
        ensures
            r.wf(),
            r.pending_input() == Seq::<u8>::empty(),
            r.consumed_bytes() == Seq::<u8>::empty(),
    {
        let r = BufReadDecoder {
            reader: buf_read,
            chunk: Vec::new(),
            pos: 0,
            incomplete: Incomplete::empty(),
            consumed: Ghost(Seq::<u8>::empty()),
        };
        proof {
            assert(r.pending_input() =~= Seq::<u8>::empty());
        }
        r
    }

    /// One strict decoding step.
    ///
    /// * `None`: the source is exhausted and nothing was or is pending; it is
    ///   reported only when no buffered data was left to decode.
    /// * `Some(Ok(text))`: the next stretch of well-formed text, taken off
    ///   the front of the pending input (extended only by fresh source
    ///   bytes); the bytes it encodes are exactly the bytes consumed.
    /// * `Some(Err(InvalidByteSequence(b)))`: the next bytes of the stream,
    ///   off the front of the pending input in the same way, can not be
    ///   decoded; they are consumed and reported exactly.
    /// * `Some(Err(Io(e)))`: the source failed; nothing was consumed.
    pub fn next_strict(&mut self) -> (r: Option<Result<String, BufReadDecoderError>>)
        requires
            old(self).wf(),
        ensures
            final(self).wf(),
            match r {
                None => {
                    &&& old(self).pending_input().len() == 0
                    &&& final(self).pending_input().len() == 0
                    &&& final(self).consumed_bytes() == old(self).consumed_bytes()
                },
                Some(res) => match res {
                    Ok(s) => {
                        &&& s@.len() > 0
                        &&& final(self).consumed_bytes() == old(self).consumed_bytes()
                            + encode_utf8(s@)
                        &&& (exists|fresh: Seq<u8>|
                            old(self).pending_input() + fresh == encode_utf8(s@)
                                + final(self).pending_input())
                    },
                    Err(err) => match err {
                        BufReadDecoderError::InvalidByteSequence(b) => {
                            &&& 1 <= b@.len() <= 3
                            &&& valid_len_of(b@) == 0
                            &&& !(classify(b@) is WellFormed)
                            &&& final(self).consumed_bytes() == old(self).consumed_bytes() + b@
                            &&& (exists|fresh: Seq<u8>|
                                old(self).pending_input() + fresh == b@
                                    + final(self).pending_input())
                        },
                        BufReadDecoderError::Io(e) => final(self).consumed_bytes() == old(
                            self,
                        ).consumed_bytes(),
                    },
                },
            },
    {
        let ghost mut newly: Seq<u8> = Seq::<u8>::empty();
        proof {
            assert(self.pending_input() =~= old(self).pending_input() + newly);
        }
        loop
            invariant
                self.wf(),
                self.consumed@ == old(self).consumed@,
                self.pending_input() == old(self).pending_input() + newly,
            decreases 9 - 2 * (self.incomplete.buffer_len as int) + (if self.pos as int
                == self.chunk@.len() {
                1int
            } else {
                0int
            }),
        {
            let chunk_len = self.chunk.len();
            if self.pos == chunk_len {
                match fill_chunk(&mut self.reader) {
                    Err(e) => {
                        return Some(Err(BufReadDecoderError::Io(e)));
                    },
                    Ok(v) => {
                        if v.len() == 0 {
                            if self.incomplete.is_empty() {
                                proof {
                                    assert(self.pending_input() =~= Seq::<u8>::empty());
                                    assert(old(self).pending_input().len() == 0);
                                }
                                return None;
                            } else {
                                let ghost p = self.incomplete.bytes();
                                let taken = self.incomplete.take_buffer();
                                let bad = slice_to_vec(taken);
                                proof {
                                    crate::scan::lemma_classify_bounds(p);
                                    self.consumed@ = self.consumed@ + bad@;
                                    assert(bad@ + self.pending_input() =~= p);
                                    assert(old(self).pending_input() + newly == bad@
                                        + self.pending_input());
                                }
                                return Some(Err(BufReadDecoderError::InvalidByteSequence(bad)));
                            }
                        } else {
                            let amt = v.len();
                            consume_chunk(&mut self.reader, amt);
                            let ghost pend0 = self.pending_input();
                            self.chunk = v;
                            self.pos = 0;
                            proof {
                                assert(self.pending_input() =~= pend0 + v@);
                                newly = newly + v@;
                                assert(self.pending_input() =~= old(self).pending_input() + newly);
                            }
                        }
                    },
                }
            } else if !self.incomplete.is_empty() {
                let ghost p = self.incomplete.bytes();
                let ghost tail_view = self.chunk@.skip(self.pos as int);
                let ghost sp = crate::spliced(p, tail_view);
                let chunk_ref = self.chunk.as_slice();
                let tail = slice_subrange(chunk_ref, self.pos, chunk_len);
                let (step, outcome) = self.incomplete.try_complete_offsets(tail);
                match outcome {
                    None => {
                        self.pos = self.pos + step;
                        proof {
                            assert(self.pending_input() =~= p + tail_view);
                        }
                    },
                    Some(u) => {
                        let taken = self.incomplete.take_buffer();
                        match u {
                            Ok(unit) => {
                                let text = bytes_as_str(taken);
                                let owned = text.to_owned();
                                proof {
                                    lemma_chars_of_bytes(text@, taken@);
                                    self.consumed@ = self.consumed@ + taken@;
                                    assert(taken@.len() > 0);
                                    assert(owned@.len() > 0) by {
                                        if owned@.len() == 0 {
                                            assert(encode_utf8(owned@) =~= Seq::<u8>::empty());
                                        }
                                    }
                                }
                                self.pos = self.pos + step;
                                proof {
                                    assert(taken@ + self.pending_input() =~= p + tail_view);
                                    assert(old(self).pending_input() + newly == taken@
                                        + self.pending_input());
                                }
                                return Some(Ok(owned));
                            },
                            Err(unit) => {
                                let bad = slice_to_vec(taken);
                                proof {
                                    lemma_malformed_span_prefix(sp);
                                    crate::scan::lemma_front_bounds(sp);
                                    self.consumed@ = self.consumed@ + bad@;
                                }
                                self.pos = self.pos + step;
                                proof {
                                    assert(bad@ + self.pending_input() =~= p + tail_view);
                                    assert(old(self).pending_input() + newly == bad@
                                        + self.pending_input());
                                }
                                return Some(Err(BufReadDecoderError::InvalidByteSequence(bad)));
                            },
                        }
                    },
                }
            } else {
                let ghost t = self.chunk@.skip(self.pos as int);
                let chunk_ref = self.chunk.as_slice();
                let tail = slice_subrange(chunk_ref, self.pos, chunk_len);
                match decode(tail) {
                    Ok(text) => {
                        let owned = text.to_owned();
                        proof {
                            self.consumed@ = self.consumed@ + text.spec_bytes();
                            assert(t.len() > 0);
                            assert(owned@.len() > 0) by {
                                if owned@.len() == 0 {
                                    assert(encode_utf8(owned@) =~= Seq::<u8>::empty());
                                }
                            }
                        }
                        self.pos = chunk_len;
                        proof {
                            assert(text.spec_bytes() + self.pending_input() =~= t);
                            assert(old(self).pending_input() + newly == text.spec_bytes()
                                + self.pending_input());
                        }
                        return Some(Ok(owned));
                    },
                    Err(e) => match e {
                        DecodeError::Invalid {
                            valid_prefix,
                            invalid_sequence,
                            remaining_input,
                        } => {
                            if valid_prefix.len() > 0 {
                                let owned = valid_prefix.to_owned();
                                proof {
                                    self.consumed@ = self.consumed@ + valid_prefix.spec_bytes();
                                    assert(owned@.len() > 0) by {
                                        if owned@.len() == 0 {
                                            assert(encode_utf8(owned@) =~= Seq::<u8>::empty());
                                        }
                                    }
                                }
                                self.pos = self.pos + valid_prefix.len();
                                proof {
                                    assert(valid_prefix.spec_bytes() + self.pending_input() =~= t);
                                    assert(old(self).pending_input() + newly
                                        == valid_prefix.spec_bytes() + self.pending_input());
                                }
                                return Some(Ok(owned));
                            } else {
                                let bad = slice_to_vec(invalid_sequence);
                                let bad_len = invalid_sequence.len();
                                proof {
                                    crate::scan::lemma_classify_bounds(t);
                                    lemma_classify_malformed_suffix(t);
                                    assert(t.skip(0) =~= t);
                                    lemma_malformed_span_prefix(t);
                                    assert(bad@ =~= t.take(classify(t)->Malformed_error_len));
                                    self.consumed@ = self.consumed@ + bad@;
                                }
                                self.pos = self.pos + bad_len;
                                proof {
                                    assert(bad@ + self.pending_input() =~= t);
                                    assert(old(self).pending_input() + newly == bad@
                                        + self.pending_input());
                                }
                                return Some(Err(BufReadDecoderError::InvalidByteSequence(bad)));
                            }
                        },
                        DecodeError::Incomplete { valid_prefix, incomplete_suffix } => {
                            self.incomplete = incomplete_suffix;
                            if valid_prefix.len() > 0 {
                                let owned = valid_prefix.to_owned();
                                proof {
                                    self.consumed@ = self.consumed@ + valid_prefix.spec_bytes();
                                    assert(owned@.len() > 0) by {
                                        if owned@.len() == 0 {
                                            assert(encode_utf8(owned@) =~= Seq::<u8>::empty());
                                        }
                                    }
                                }
                                self.pos = chunk_len;
                                proof {
                                    assert(valid_prefix.spec_bytes() + self.pending_input() =~= t);
                                    assert(old(self).pending_input() + newly
                                        == valid_prefix.spec_bytes() + self.pending_input());
                                }
                                return Some(Ok(owned));
                            } else {
                                self.pos = chunk_len;
                                proof {
                                    assert(self.pending_input() =~= t);
                                }
                            }
                        },
                    },
                }
            }
        }
    }

    /// One lossy decoding step: like [`BufReadDecoder::next_strict`], but a
    /// malformed or unterminated sequence becomes one replacement character
    /// instead of an error.  Only I/O errors are surfaced.
    pub fn next_lossy(&mut self) -> (r: Option<Result<String, std::io::Error>>)
        requires
            old(self).wf(),
        ensures
            final(self).wf(),
            match r {
                None => {
                    &&& old(self).pending_input().len() == 0
                    &&& final(self).pending_input().len() == 0
                    &&& final(self).consumed_bytes() == old(self).consumed_bytes()
                },
                Some(res) => match res {
                    Ok(s) => {
                        &&& s@.len() > 0
                        &&& ((final(self).consumed_bytes() == old(self).consumed_bytes()
                            + encode_utf8(s@) && (exists|fresh: Seq<u8>|
                            old(self).pending_input() + fresh == encode_utf8(s@)
                                + final(self).pending_input())) || (s@ == seq![replacement()] && (
                        exists|b: Seq<u8>|
                            undecodable_span(b) && final(self).consumed_bytes() == old(
                                self,
                            ).consumed_bytes() + b && (exists|fresh: Seq<u8>|
                                old(self).pending_input() + fresh == b
                                    + final(self).pending_input()))))
                    },
                    Err(e) => final(self).consumed_bytes() == old(self).consumed_bytes(),
                },
            },
    {
        match self.next_strict() {
            None => None,
            Some(res) => match res {
                Ok(s) => Some(Ok(s)),
                Err(err) => match err {
                    BufReadDecoderError::InvalidByteSequence(b) => {
                        let replacement_text = REPLACEMENT_CHARACTER.to_owned();
                        proof {
                            reveal_strlit("\u{FFFD}");
                            assert(replacement_text@ =~= seq![replacement()]);
                            assert(undecodable_span(b@) && self.consumed@ == old(self).consumed@
                                + b@);
                            assert(exists|w: Seq<u8>|
                                undecodable_span(w) && self.consumed@ == old(self).consumed@ + w);
                        }
                        Some(Ok(replacement_text))
                    },
                    BufReadDecoderError::Io(e) => Some(Err(e)),
                },
            },
        }
    }

    /// Decode the whole source with replacement-character substitution into
    /// one owned string.  The result is the replacement-character decoding of
    /// some byte sequence — the bytes the source yielded; only a genuine I/O
    /// error is ever surfaced.
    pub fn read_to_string_lossy(buf_read: R) -> (r: Result<String, std::io::Error>)
        ensures
            r matches Ok(s) ==> exists|bytes: Seq<u8>| s@ == lossy_decode(bytes),
    {
        let mut reader = buf_read;
        let sink = StringSink::new();
        let ghost sink_start = sink.pushed();
        let mut decoder = LossyDecoder::new(sink);
        match read_all(&mut reader) {
            Err(e) => Err(e),
            Ok(v) => {
                decoder.feed(v.as_slice());
                let out_sink = decoder.finish();
                let out = out_sink.into_string();
                proof {
                    assert(out@ =~= lossy_decode(decoder.fed_bytes()));
                }
                Ok(out)
            },
        }
    }
}

} // verus!
