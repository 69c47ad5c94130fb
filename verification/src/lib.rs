//! Incremental, zero-copy UTF-8 decoding with precise error handling.
//!
//! Three levels of API:
//!
//! * [`decode()`] — single-shot decode of a byte slice, returning the valid
//!   prefix together with either an invalid sequence or an incomplete suffix
//!   that can be completed with more input.
//! * [`lossy::LossyDecoder`] — a push-based streaming decoder: feed it chunks
//!   of bytes and it hands text segments to a sink, replacing errors with
//!   U+FFFD.
//! * [`read::BufReadDecoder`] — a pull-based streaming decoder over any
//!   [`std::io::BufRead`], with strict and lossy modes.
use vstd::prelude::*;

pub mod lossy;
pub mod read;
pub mod scan;

pub use lossy::LossyDecoder;
pub use read::BufReadDecoder;
pub use read::BufReadDecoderError;

use crate::scan::classify;
use crate::scan::front;
use crate::scan::lemma_classify_bounds;
use crate::scan::lemma_classify_malformed_suffix;
use crate::scan::lemma_classify_prefix_valid;
use crate::scan::lemma_classify_step_scalar;
use crate::scan::lemma_classify_truncated_suffix;
use crate::scan::lemma_classify_wellformed;
use crate::scan::lemma_pending_extend;
use crate::scan::shift_class;
use crate::scan::valid_len_of;
use crate::scan::Classification;
use crate::scan::FrontStatus;
use vstd::slice::slice_subrange;
use vstd::string::StringSliceAdditionalSpecFns;
use vstd::utf8::decode_utf8;
use vstd::utf8::encode_utf8;
use vstd::utf8::valid_utf8;

verus! {

/// The replacement character, U+FFFD.  In lossy decoding, it stands in for
/// every decoding error.
pub const REPLACEMENT_CHARACTER: &'static str = "\u{FFFD}";

/// Error from [`decode()`] when the input is not entirely well-formed UTF-8.
#[derive(Debug, Copy, Clone)]
pub enum DecodeError<'a> {
    /// In lossy decoding insert `valid_prefix`, then one replacement
    /// character, then call [`decode()`] again with `remaining_input`.
    Invalid {
        /// The leading well-formed UTF-8 portion of the input.
        valid_prefix: &'a str,
        /// The bytes that form the invalid sequence.
        invalid_sequence: &'a [u8],
        /// The bytes after the invalid sequence, not yet decoded.
        remaining_input: &'a [u8],
    },
    /// Call [`Incomplete::try_complete`] with more input when available.
    /// If no more input is available, this is an invalid byte sequence.
    Incomplete {
        /// The leading well-formed UTF-8 portion of the input.
        valid_prefix: &'a str,
        /// The trailing bytes that start a multi-byte code point but are not
        /// complete.
        incomplete_suffix: Incomplete,
    },
}

/// The text that [`DecodeError::description`] renders for an invalid
/// sequence: a pure function of the offending bytes and the two byte counts.
pub uninterp spec fn invalid_desc_of(bytes: Seq<u8>, valid: int, unprocessed: int) -> Seq<char>;

/// The text that [`DecodeError::description`] renders for an incomplete
/// sequence: a pure function of the buffered bytes and the prefix byte count.
pub uninterp spec fn incomplete_desc_of(bytes: Seq<u8>, valid: int) -> Seq<char>;

impl<'a> DecodeError<'a> {
    /// A human-readable account of the error, naming the offending bytes and
    /// how much of the input stood before and after them.
    pub fn description(&self) -> (r: String)
        ensures
            match *self {
                DecodeError::Invalid { valid_prefix, invalid_sequence, remaining_input } => r@
                    == invalid_desc_of(
                    invalid_sequence@,
                    (valid_prefix.spec_bytes().len() as usize) as int,
                    remaining_input@.len() as int,
                ),
                DecodeError::Incomplete { valid_prefix, incomplete_suffix } => r@
                    == incomplete_desc_of(
                    incomplete_suffix.buffer@.take(
                        if incomplete_suffix.buffer_len <= 4 {
                            incomplete_suffix.buffer_len as int
                        } else {
                            4
                        },
                    ),
                    (valid_prefix.spec_bytes().len() as usize) as int,
                ),
            },
    {
        match *self {
            DecodeError::Invalid { valid_prefix, invalid_sequence, remaining_input } => {
                let r = describe_invalid(
                    invalid_sequence,
                    valid_prefix.len(),
                    remaining_input.len(),
                );
                r
            },
            DecodeError::Incomplete { valid_prefix, incomplete_suffix } => {
                let occupied: usize = if incomplete_suffix.buffer_len <= 4 {
                    incomplete_suffix.buffer_len as usize
                } else {
                    4
                };
                let held = slice_subrange(incomplete_suffix.buffer.as_slice(), 0, occupied);
                proof {
                    assert(held@ =~= incomplete_suffix.buffer@.take(occupied as int));
                }
                let r = describe_incomplete(held, valid_prefix.len());
                r
            },
        }
    }
}

/// Relies on the `format` macro to render the offending bytes in hex; the
/// result depends on the arguments alone.
#[verifier::external_body]
fn describe_invalid(invalid_sequence: &[u8], valid: usize, unprocessed: usize) -> (r: String)
    ensures
        r@ == invalid_desc_of(invalid_sequence@, valid as int, unprocessed as int),
{
    format!(
        "found invalid byte sequence {invalid_sequence:02x?} after \
         {valid} valid bytes, followed by {unprocessed} more unprocessed bytes"
    )
}

/// Relies on the `format` macro to render the buffered bytes in hex; the
/// result depends on the arguments alone.
#[verifier::external_body]
fn describe_incomplete(held: &[u8], valid: usize) -> (r: String)
    ensures
        r@ == incomplete_desc_of(held@, valid as int),
{
    format!("found incomplete byte sequence {held:02x?} after {valid} bytes")
}

/// An incomplete byte sequence for a multi-byte UTF-8 code point.
///
/// Feed more bytes via [`Incomplete::try_complete`] to finish decoding.
#[derive(Debug, Copy, Clone)]
pub struct Incomplete {
    /// Internal buffer holding the incomplete bytes (up to 4).
    pub buffer: [u8; 4],
    /// How many bytes in `buffer` are occupied.
    pub buffer_len: u8,
}

impl Incomplete {
    /// The occupied length never exceeds the buffer's capacity.
    pub open spec fn well_formed(self) -> bool {
        self.buffer_len <= 4
    }

    /// The occupied bytes of the buffer; bytes past `buffer_len` are
    /// unspecified padding.
    pub open spec fn bytes(self) -> Seq<u8> {
        self.buffer@.take(self.buffer_len as int)
    }

    /// True when the buffer holds a non-empty proper prefix of some
    /// multi-byte scalar encoding, as produced by [`decode()`].
    pub open spec fn is_pending(self) -> bool {
        &&& self.well_formed()
        &&& self.bytes().len() > 0
        &&& classify(self.bytes()) == (Classification::Truncated { valid_len: 0 })
    }

    /// Create an empty `Incomplete` with no buffered bytes.
    pub fn empty() -> (r: Incomplete)
        ensures
            r.well_formed(),
            r.bytes() == Seq::<u8>::empty(),
            r.buffer_len == 0,
    {
        let r = Incomplete { buffer: [0u8, 0u8, 0u8, 0u8], buffer_len: 0 };
        proof {
            assert(r.bytes() =~= Seq::<u8>::empty());
        }
        r
    }

    /// Returns `true` if no bytes are buffered.
    pub fn is_empty(&self) -> (r: bool)
        ensures
            r == (self.buffer_len == 0),
    {
        self.buffer_len == 0
    }

    /// Create an `Incomplete` pre-filled with the given bytes.
    pub fn new(bytes: &[u8]) -> (r: Incomplete)
        requires
            bytes@.len() <= 4,
        ensures
            r.well_formed(),
            r.bytes() == bytes@,
    {
        let mut buffer = [0u8, 0u8, 0u8, 0u8];
        let len = bytes.len();
        let mut j: usize = 0;
        while j < len
            invariant
                0 <= j <= len,
                len == bytes@.len() <= 4,
                forall|k: int| 0 <= k < j ==> buffer@[k] == bytes@[k],
            decreases len - j,
        {
            buffer[j] = bytes[j];
            j = j + 1;
        }
        let r = Incomplete { buffer, buffer_len: len as u8 };
        proof {
            assert(r.bytes() =~= bytes@);
        }
        r
    }

    /// Append what fits of `input` to the buffered bytes and re-validate the
    /// combination.  Returns how many bytes of `input` were consumed and:
    ///
    /// * `None`: still incomplete; all of `input` was absorbed.  If no more
    ///   input will come, the buffered bytes are an invalid sequence.
    /// * `Some(Ok(()))`: the buffer now holds well-formed text covering at
    ///   least one complete code point past the previously buffered bytes.
    /// * `Some(Err(()))`: the buffer now holds a confirmed invalid sequence.
    pub fn try_complete_offsets(&mut self, input: &[u8]) -> (r: (usize, Option<Result<(), ()>>))
        requires
            old(self).is_pending(),
        ensures
            ({
                let p = old(self).bytes();
                let sp = spliced(p, input@);
                let v = valid_len_of(sp);
                &&& final(self).well_formed()
                &&& r.0 <= input@.len()
                &&& match r.1 {
                    Some(u) => match u {
                        Ok(unit) => {
                            &&& p.len() < v <= sp.len()
                            &&& (classify(sp) is WellFormed ==> v == sp.len())
                            &&& final(self).bytes() == sp.take(v)
                            &&& valid_utf8(sp.take(v))
                            &&& r.0 == v - p.len()
                        },
                        Err(unit) => {
                            &&& (classify(sp) matches Classification::Malformed {
                                valid_len,
                                error_len,
                            } && valid_len == 0 && final(self).bytes() == sp.take(error_len)
                                && r.0 == error_len - p.len() && front(sp)
                                == (FrontStatus::Malformed { len: error_len }))
                        },
                    },
                    None => {
                        &&& classify(sp) == (Classification::Truncated { valid_len: 0 })
                        &&& r.0 == input@.len()
                        &&& final(self).bytes() == p + input@
                        &&& final(self).is_pending()
                    },
                }
            }),
    {
        let ghost p = old(self).bytes();
        let initial = self.buffer_len as usize;
        let mut copied: usize = 0;
        while initial + copied < 4 && copied < input.len()
            invariant
                old(self).is_pending(),
                initial == old(self).buffer_len as int,
                self.buffer_len == old(self).buffer_len,
                0 <= copied <= input@.len(),
                initial + copied <= 4,
                self.buffer@.take(initial as int) == old(self).bytes(),
                forall|k: int| 0 <= k < copied ==> self.buffer@[initial + k] == input@[k],
            decreases 4 - initial - copied,
        {
            let b = input[copied];
            self.buffer[initial + copied] = b;
            proof {
                assert(self.buffer@.take(initial as int) =~= old(self).bytes());
            }
            copied = copied + 1;
        }
        let total = initial + copied;
        proof {
            assert(copied == scan_fill_count(p, input@));
            assert(self.buffer@.take(total as int) =~= spliced(p, input@));
            lemma_pending_extend(p, input@.take(copied as int));
        }
        let ghost sp = spliced(p, input@);
        let buf = self.buffer.as_slice();
        let slice = slice_subrange(buf, 0, total);
        match validate(slice) {
            Validation::Valid => {
                proof {
                    lemma_classify_wellformed(sp);
                    assert(sp.take(sp.len() as int) =~= sp);
                    if copied == 0 {
                        assert(sp =~= p);
                        assert(false);
                    }
                }
                self.buffer_len = total as u8;
                (copied, Some(Ok(())))
            },
            Validation::Invalid { valid_up_to, error_len } => {
                if valid_up_to > 0 {
                    proof {
                        lemma_classify_bounds(sp);
                        lemma_step_front_scalar(sp);
                        lemma_classify_prefix_valid(sp);
                        assert(valid_up_to <= sp.len() <= 4);
                    }
                    self.buffer_len = valid_up_to as u8;
                    proof {
                        assert(self.bytes() =~= sp.take(valid_up_to as int));
                    }
                    (valid_up_to - initial, Some(Ok(())))
                } else {
                    proof {
                        lemma_classify_bounds(sp);
                        lemma_classify_malformed_suffix(sp);
                        assert(sp.skip(0) =~= sp);
                        scan::lemma_front_bounds(sp);
                    }
                    self.buffer_len = error_len as u8;
                    proof {
                        assert(self.bytes() =~= sp.take(error_len as int));
                    }
                    (error_len - initial, Some(Err(())))
                }
            },
            Validation::Incomplete { valid_up_to } => {
                if valid_up_to > 0 {
                    proof {
                        lemma_classify_bounds(sp);
                        lemma_step_front_scalar(sp);
                        lemma_classify_prefix_valid(sp);
                        assert(valid_up_to <= sp.len() <= 4);
                    }
                    self.buffer_len = valid_up_to as u8;
                    proof {
                        assert(self.bytes() =~= sp.take(valid_up_to as int));
                    }
                    (valid_up_to - initial, Some(Ok(())))
                } else {
                    proof {
                        lemma_classify_bounds(sp);
                        assert(copied == input@.len());
                        assert(input@.take(copied as int) =~= input@);
                    }
                    self.buffer_len = total as u8;
                    proof {
                        assert(self.bytes() =~= sp);
                    }
                    (copied, None)
                }
            },
        }
    }

    /// Hand out the buffered bytes and reset the buffer to empty.
    fn take_buffer(&mut self) -> (r: &[u8])
        requires
            old(self).well_formed(),
        ensures
            r@ == old(self).bytes(),
            final(self).buffer_len == 0,
            final(self).buffer == old(self).buffer,
    {
        let len = self.buffer_len as usize;
        self.buffer_len = 0;
        let buf = self.buffer.as_slice();
        slice_subrange(buf, 0, len)
    }

    /// Resolve previously buffered partial bytes against newly arrived bytes.
    ///
    /// * `None`: still incomplete; call `try_complete` again with more input.
    ///   If no more input is available, this is an invalid byte sequence.
    /// * `Some((result, remaining_input))`: this `Incomplete` is resolved.
    ///   To keep decoding, pass `remaining_input` to [`decode()`].
    pub fn try_complete<'i>(&mut self, input: &'i [u8]) -> (r: Option<
        (Result<&str, &[u8]>, &'i [u8]),
    >)
        requires
            old(self).is_pending(),
        ensures
            ({
                let p = old(self).bytes();
                let sp = spliced(p, input@);
                let v = valid_len_of(sp);
                match r {
                    None => {
                        &&& classify(sp) == (Classification::Truncated { valid_len: 0 })
                        &&& final(self).bytes() == p + input@
                        &&& final(self).is_pending()
                    },
                    Some(pair) => {
                        &&& final(self).buffer_len == 0
                        &&& match pair.0 {
                            Ok(text) => {
                                &&& p.len() < v <= sp.len()
                                &&& text.spec_bytes() == sp.take(v)
                                &&& valid_utf8(sp.take(v))
                                &&& text@ == decode_utf8(sp.take(v))
                                &&& pair.1@ == input@.skip(v - p.len())
                            },
                            Err(bad) => {
                                &&& (classify(sp) matches Classification::Malformed {
                                    valid_len,
                                    error_len,
                                } && valid_len == 0 && bad@ == sp.take(error_len) && front(sp)
                                    == (FrontStatus::Malformed { len: error_len }) && pair.1@
                                    == input@.skip(error_len - p.len()))
                            },
                        }
                    },
                }
            }),
    {
        let (consumed, opt) = self.try_complete_offsets(input);
        match opt {
            None => None,
            Some(u) => {
                let rest = slice_subrange(input, consumed, input.len());
                let taken = self.take_buffer();
                match u {
                    Ok(unit) => {
                        let text = bytes_as_str(taken);
                        proof {
                            lemma_chars_of_bytes(text@, taken@);
                        }
                        Some((Ok(text), rest))
                    },
                    Err(unit) => Some((Err(taken), rest)),
                }
            },
        }
    }
}

/// Number of bytes of `input` that fit into a continuation buffer already
/// holding `p`.
pub open spec fn scan_fill_count(p: Seq<u8>, input: Seq<u8>) -> int {
    if input.len() <= 4 - p.len() {
        input.len() as int
    } else {
        4 - p.len()
    }
}

/// The continuation buffer's contents after absorbing what fits of `input`.
pub open spec fn spliced(p: Seq<u8>, input: Seq<u8>) -> Seq<u8> {
    p + input.take(scan_fill_count(p, input))
}

/// A classification with a positive valid prefix starts with a complete
/// scalar encoding, which reaches past any pending bytes it extends.
proof fn lemma_step_front_scalar(s: Seq<u8>)
    requires
        s.len() > 0,
        valid_len_of(s) > 0,
    ensures
        front(s) is Scalar,
        valid_len_of(s) >= front(s)->Scalar_len,
{
    scan::lemma_front_bounds(s);
    match front(s) {
        FrontStatus::Scalar { len } => {
            lemma_classify_step_scalar(s);
            lemma_classify_bounds(s.skip(len));
        },
        FrontStatus::Malformed { len } => {
            assert(valid_len_of(s) == 0);
        },
        FrontStatus::Truncated { len } => {
            assert(valid_len_of(s) == 0);
        },
    }
}

/// Relies on `str::from_utf8`: well-formed UTF-8 bytes reinterpreted as text
/// with the same underlying bytes.  The precondition makes the call
/// infallible.
#[verifier::external_body]
pub(crate) fn bytes_as_str(b: &[u8]) -> (r: &str)
    requires
        valid_utf8(b@),
    ensures
        r.spec_bytes() == b@,
{
    core::str::from_utf8(b).unwrap()
}

/// A sequence of characters whose UTF-8 encoding is `b` is the decoding of
/// `b`: encoding is injective on well-formed byte sequences.
pub proof fn lemma_chars_of_bytes(r: Seq<char>, b: Seq<u8>)
    requires
        encode_utf8(r) == b,
        valid_utf8(b),
    ensures
        r == decode_utf8(b),
{
    broadcast use vstd::utf8::encode_utf8_decode_utf8;

    assert(decode_utf8(encode_utf8(r)) == r);
}

/// Outcome of scanning a byte slice in full.
enum Validation {
    Valid,
    Invalid { valid_up_to: usize, error_len: usize },
    Incomplete { valid_up_to: usize },
}

fn lead_len_exec(b: u8) -> (r: u8)
    ensures
        r as int == scan::lead_len(b),
{
    if b <= 0x7f {
        1
    } else if 0xc2 <= b && b <= 0xdf {
        2
    } else if 0xe0 <= b && b <= 0xef {
        3
    } else if 0xf0 <= b && b <= 0xf4 {
        4
    } else {
        0
    }
}

fn is_cont_byte_exec(b: u8) -> (r: bool)
    ensures
        r == scan::is_cont_byte(b),
{
    0x80 <= b && b <= 0xbf
}

fn valid_second_byte_exec(lead: u8, b: u8) -> (r: bool)
    ensures
        r == scan::valid_second_byte(lead, b),
{
    if lead == 0xe0 {
        0xa0 <= b && b <= 0xbf
    } else if lead == 0xed {
        0x80 <= b && b <= 0x9f
    } else if lead == 0xf0 {
        0x90 <= b && b <= 0xbf
    } else if lead == 0xf4 {
        0x80 <= b && b <= 0x8f
    } else {
        0x80 <= b && b <= 0xbf
    }
}

/// Scan `s` from the start and report [`classify`]`(s@)` as runtime values.
fn validate(s: &[u8]) -> (r: Validation)
    ensures
        match r {
            Validation::Valid => classify(s@) is WellFormed,
            Validation::Invalid { valid_up_to, error_len } => classify(s@)
                == (Classification::Malformed {
                valid_len: valid_up_to as int,
                error_len: error_len as int,
            }),
            Validation::Incomplete { valid_up_to } => classify(s@) == (Classification::Truncated {
                valid_len: valid_up_to as int,
            }),
        },
{
    let n = s.len();
    let mut i: usize = 0;
    proof {
        assert(s@.skip(0) =~= s@);
    }
    loop
        invariant
            0 <= i <= n,
            n == s@.len(),
            classify(s@) == shift_class(classify(s@.skip(i as int)), i as int),
        decreases n - i,
    {
        let ghost t = s@.skip(i as int);
        if i == n {
            proof {
                assert(t =~= Seq::<u8>::empty());
            }
            return Validation::Valid;
        }
        let b0 = s[i];
        proof {
            assert(t[0] == s@[i as int]);
        }
        let w = lead_len_exec(b0);
        if w == 0 {
            proof {
                assert(front(t) == FrontStatus::Malformed { len: 1 });
            }
            return Validation::Invalid { valid_up_to: i, error_len: 1 };
        }
        if w > 1 {
            if i + 1 == n {
                proof {
                    assert(front(t) == FrontStatus::Truncated { len: 1 });
                }
                return Validation::Incomplete { valid_up_to: i };
            }
            let b1 = s[i + 1];
            proof {
                assert(t[1] == s@[i + 1]);
            }
            if !valid_second_byte_exec(b0, b1) {
                proof {
                    assert(front(t) == FrontStatus::Malformed { len: 1 });
                }
                return Validation::Invalid { valid_up_to: i, error_len: 1 };
            }
            if w > 2 {
                if i + 2 == n {
                    proof {
                        assert(front(t) == FrontStatus::Truncated { len: 2 });
                    }
                    return Validation::Incomplete { valid_up_to: i };
                }
                let b2 = s[i + 2];
                proof {
                    assert(t[2] == s@[i + 2]);
                }
                if !is_cont_byte_exec(b2) {
                    proof {
                        assert(front(t) == FrontStatus::Malformed { len: 2 });
                    }
                    return Validation::Invalid { valid_up_to: i, error_len: 2 };
                }
                if w > 3 {
                    if i + 3 == n {
                        proof {
                            assert(front(t) == FrontStatus::Truncated { len: 3 });
                        }
                        return Validation::Incomplete { valid_up_to: i };
                    }
                    let b3 = s[i + 3];
                    proof {
                        assert(t[3] == s@[i + 3]);
                    }
                    if !is_cont_byte_exec(b3) {
                        proof {
                            assert(front(t) == FrontStatus::Malformed { len: 3 });
                        }
                        return Validation::Invalid { valid_up_to: i, error_len: 3 };
                    }
                }
            }
        }
        proof {
            assert(front(t) == FrontStatus::Scalar { len: w as int });
            lemma_classify_step_scalar(t);
            assert(t.skip(w as int) =~= s@.skip(i + w));
        }
        i = i + w as usize;
    }
}

/// Decode a byte slice as UTF-8, returning the valid prefix on error.
///
/// Unlike whole-buffer validation, this distinguishes invalid byte sequences
/// from incomplete ones, so that callers can request more input.  The three
/// parts of each error variant, concatenated in order, reconstruct the input
/// exactly.
pub fn decode(input: &[u8]) -> (r: Result<&str, DecodeError<'_>>)
    ensures
        match r {
            Ok(s) => {
                &&& classify(input@) is WellFormed
                &&& valid_utf8(input@)
                &&& s.spec_bytes() == input@
                &&& s@ == decode_utf8(input@)
            },
            Err(e) => match e {
                DecodeError::Invalid { valid_prefix, invalid_sequence, remaining_input } => {
                    &&& (classify(input@) matches Classification::Malformed { valid_len, error_len }
                        && valid_prefix.spec_bytes() == input@.take(valid_len)
                        && invalid_sequence@ == input@.subrange(valid_len, valid_len + error_len)
                        && remaining_input@ == input@.skip(valid_len + error_len))
                    &&& valid_utf8(valid_prefix.spec_bytes())
                    &&& valid_prefix@ == decode_utf8(valid_prefix.spec_bytes())
                    &&& 1 <= invalid_sequence@.len() <= 3
                    &&& valid_prefix.spec_bytes() + invalid_sequence@ + remaining_input@ == input@
                },
                DecodeError::Incomplete { valid_prefix, incomplete_suffix } => {
                    &&& (classify(input@) matches Classification::Truncated { valid_len }
                        && valid_prefix.spec_bytes() == input@.take(valid_len)
                        && incomplete_suffix.bytes() == input@.skip(valid_len))
                    &&& valid_utf8(valid_prefix.spec_bytes())
                    &&& valid_prefix@ == decode_utf8(valid_prefix.spec_bytes())
                    &&& incomplete_suffix.is_pending()
                    &&& 1 <= incomplete_suffix.bytes().len() <= 3
                    &&& valid_prefix.spec_bytes() + incomplete_suffix.bytes() == input@
                },
            },
        },
{
    let n = input.len();
    match validate(input) {
        Validation::Valid => {
            proof {
                lemma_classify_wellformed(input@);
            }
            let s = bytes_as_str(input);
            proof {
                lemma_chars_of_bytes(s@, input@);
            }
            Ok(s)
        },
        Validation::Invalid { valid_up_to, error_len } => {
            proof {
                lemma_classify_bounds(input@);
                lemma_classify_prefix_valid(input@);
            }
            let valid_bytes = slice_subrange(input, 0, valid_up_to);
            let valid = bytes_as_str(valid_bytes);
            let invalid = slice_subrange(input, valid_up_to, valid_up_to + error_len);
            let rest = slice_subrange(input, valid_up_to + error_len, input.len());
            proof {
                lemma_chars_of_bytes(valid@, valid_bytes@);
                assert(valid.spec_bytes() + invalid@ + rest@ =~= input@);
            }
            Err(
                DecodeError::Invalid {
                    valid_prefix: valid,
                    invalid_sequence: invalid,
                    remaining_input: rest,
                },
            )
        },
        Validation::Incomplete { valid_up_to } => {
            proof {
                lemma_classify_bounds(input@);
                lemma_classify_prefix_valid(input@);
                lemma_classify_truncated_suffix(input@);
            }
            let valid_bytes = slice_subrange(input, 0, valid_up_to);
            let valid = bytes_as_str(valid_bytes);
            let suffix = slice_subrange(input, valid_up_to, input.len());
            let incomplete = Incomplete::new(suffix);
            proof {
                lemma_chars_of_bytes(valid@, valid_bytes@);
                assert(valid.spec_bytes() + incomplete.bytes() =~= input@);
            }
            Err(DecodeError::Incomplete { valid_prefix: valid, incomplete_suffix: incomplete })
        },
    }
}

} // verus!
