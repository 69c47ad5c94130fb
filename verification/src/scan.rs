//! Byte-level model of incremental UTF-8 validation.
//!
//! [`front`] classifies the first scalar encoding of a byte sequence the way a
//! left-to-right validator does: either a complete well-formed encoding, a span
//! of bytes that can never begin a well-formed encoding however the sequence is
//! extended, or a truncated encoding that ran out of bytes.  [`classify`]
//! extends this to whole sequences and [`lossy_decode`] gives the text that
//! replacement-character decoding produces.  The lemmas at the end tie these
//! definitions to `vstd::utf8`'s notion of well-formedness.
use vstd::prelude::*;
use vstd::utf8::codepoint_width_2;
use vstd::utf8::codepoint_width_3;
use vstd::utf8::codepoint_width_4;
use vstd::utf8::decode_first_scalar;
use vstd::utf8::decode_utf8;
use vstd::utf8::is_continuation_byte;
use vstd::utf8::length_of_first_scalar;
use vstd::utf8::pop_first_scalar;
use vstd::utf8::valid_first_scalar;
use vstd::utf8::valid_utf8;

verus! {

/// How a validator reports the front of a byte sequence.
pub enum FrontStatus {
    /// The sequence begins with a complete well-formed scalar encoding of `len` bytes.
    Scalar { len: int },
    /// The first `len` bytes can never begin a well-formed scalar encoding,
    /// whatever bytes follow the sequence.
    Malformed { len: int },
    /// The whole sequence (`len` bytes, the full length) is a proper prefix of
    /// some well-formed scalar encoding, cut short by the end of the input.
    Truncated { len: int },
}

/// How a validator reports a whole byte sequence.
pub enum Classification {
    /// The whole sequence is well-formed UTF-8.
    WellFormed,
    /// The longest well-formed prefix is `valid_len` bytes; the `error_len`
    /// bytes after it can never begin a well-formed scalar encoding.
    Malformed { valid_len: int, error_len: int },
    /// The longest well-formed prefix is `valid_len` bytes; everything after
    /// it is a truncated scalar encoding at the end of the input.
    Truncated { valid_len: int },
}

/// True when `b` has the continuation-byte pattern 10xxxxxx.
pub open spec fn is_cont_byte(b: u8) -> bool {
    0x80 <= b <= 0xbf
}

/// Number of bytes in the scalar encoding announced by lead byte `b`,
/// or 0 when no well-formed encoding starts with `b` (continuation bytes,
/// the overlong leads 0xC0 and 0xC1, and 0xF5 through 0xFF).
pub open spec fn lead_len(b: u8) -> int {
    if b <= 0x7f {
        1
    } else if 0xc2 <= b && b <= 0xdf {
        2
    } else if 0xe0 <= b && b <= 0xef {
        3
    } else if 0xf0 <= b && b <= 0xf4 {
        4
    } else {
        0
    }
}

/// Admissible range for the second byte of a multi-byte encoding led by
/// `lead`.  The range is narrowed for 0xE0 and 0xF0 (ruling out overlong
/// encodings), 0xED (ruling out surrogates) and 0xF4 (ruling out codepoints
/// past U+10FFFF).
pub open spec fn valid_second_byte(lead: u8, b: u8) -> bool {
    if lead == 0xe0 {
        0xa0 <= b <= 0xbf
    } else if lead == 0xed {
        0x80 <= b <= 0x9f
    } else if lead == 0xf0 {
        0x90 <= b <= 0xbf
    } else if lead == 0xf4 {
        0x80 <= b <= 0x8f
    } else {
        is_cont_byte(b)
    }
}

/// Classification of the front of a non-empty byte sequence.
pub open spec fn front(s: Seq<u8>) -> FrontStatus
    recommends
        s.len() > 0,
{
    let w = lead_len(s[0]);
    if w == 0 {
        FrontStatus::Malformed { len: 1 }
    } else if w == 1 {
        FrontStatus::Scalar { len: 1 }
    } else if s.len() < 2 {
        FrontStatus::Truncated { len: 1 }
    } else if !valid_second_byte(s[0], s[1]) {
        FrontStatus::Malformed { len: 1 }
    } else if w == 2 {
        FrontStatus::Scalar { len: 2 }
    } else if s.len() < 3 {
        FrontStatus::Truncated { len: 2 }
    } else if !is_cont_byte(s[2]) {
        FrontStatus::Malformed { len: 2 }
    } else if w == 3 {
        FrontStatus::Scalar { len: 3 }
    } else if s.len() < 4 {
        FrontStatus::Truncated { len: 3 }
    } else if !is_cont_byte(s[3]) {
        FrontStatus::Malformed { len: 3 }
    } else {
        FrontStatus::Scalar { len: 4 }
    }
}

/// Classification of a whole byte sequence, scanning scalar by scalar.
pub open spec fn classify(s: Seq<u8>) -> Classification
    decreases s.len(),
{
    if s.len() == 0 {
        Classification::WellFormed
    } else {
        match front(s) {
            FrontStatus::Scalar { len } => match classify(s.skip(len)) {
                Classification::WellFormed => Classification::WellFormed,
                Classification::Malformed { valid_len, error_len } => (Classification::Malformed {
                    valid_len: len + valid_len,
                    error_len,
                }),
                Classification::Truncated { valid_len } => (Classification::Truncated {
                    valid_len: len + valid_len,
                }),
            },
            FrontStatus::Malformed { len } => (Classification::Malformed {
                valid_len: 0,
                error_len: len,
            }),
            FrontStatus::Truncated { len } => Classification::Truncated { valid_len: 0 },
        }
    }
}

/// Byte length of the longest well-formed prefix that [`classify`] reports.
pub open spec fn valid_len_of(s: Seq<u8>) -> int {
    match classify(s) {
        Classification::WellFormed => s.len() as int,
        Classification::Malformed { valid_len, .. } => valid_len,
        Classification::Truncated { valid_len } => valid_len,
    }
}

/// The replacement character substituted for undecodable bytes.
pub open spec fn replacement() -> char {
    '\u{FFFD}'
}

/// Text produced by replacement-character decoding of `s`: each well-formed
/// scalar encoding decodes to its character, each malformed span and a
/// truncated encoding at the end each become one replacement character.
pub open spec fn lossy_decode(s: Seq<u8>) -> Seq<char>
    decreases s.len(),
{
    if s.len() == 0 {
        Seq::<char>::empty()
    } else {
        match front(s) {
            FrontStatus::Scalar { len } => seq![decode_first_scalar(s) as char] + lossy_decode(
                s.skip(len),
            ),
            FrontStatus::Malformed { len } => seq![replacement()] + lossy_decode(s.skip(len)),
            FrontStatus::Truncated { len } => seq![replacement()],
        }
    }
}

/// Shape facts about [`front`]: the reported spans are short and in bounds,
/// and a truncated front covers the whole sequence.
pub proof fn lemma_front_bounds(s: Seq<u8>)
    requires
        s.len() > 0,
    ensures
        match front(s) {
            FrontStatus::Scalar { len } => 1 <= len <= 4 && len <= s.len() && len == lead_len(
                s[0],
            ),
            FrontStatus::Malformed { len } => 1 <= len <= 3 && len <= s.len(),
            FrontStatus::Truncated { len } => 1 <= len <= 3 && len == s.len() && lead_len(s[0])
                > len,
        },
{
}

/// Shape facts about [`classify`]: the reported spans partition a prefix of
/// the sequence, a malformed span has 1 to 3 bytes, and a truncated suffix
/// has 1 to 3 bytes.
pub proof fn lemma_classify_bounds(s: Seq<u8>)
    ensures
        match classify(s) {
            Classification::WellFormed => true,
            Classification::Malformed { valid_len, error_len } => 0 <= valid_len && 1 <= error_len
                <= 3 && valid_len + error_len <= s.len(),
            Classification::Truncated { valid_len } => 0 <= valid_len && 1 <= s.len() - valid_len
                <= 3,
        },
    decreases s.len(),
{
    if s.len() > 0 {
        lemma_front_bounds(s);
        match front(s) {
            FrontStatus::Scalar { len } => {
                lemma_classify_bounds(s.skip(len));
            },
            _ => {},
        }
    }
}

/// A scalar or malformed front is decided by the bytes it covers: appending
/// more bytes does not change it.  A truncated front covers the whole
/// sequence and may be decided either way by what follows.
pub proof fn lemma_front_extend(s: Seq<u8>, t: Seq<u8>)
    requires
        s.len() > 0,
    ensures
        match front(s) {
            FrontStatus::Scalar { len } => front(s + t) == FrontStatus::Scalar { len },
            FrontStatus::Malformed { len } => front(s + t) == FrontStatus::Malformed { len },
            FrontStatus::Truncated { len } => true,
        },
{
    assert((s + t)[0] == s[0]);
    if s.len() >= 2 {
        assert((s + t)[1] == s[1]);
    }
    if s.len() >= 3 {
        assert((s + t)[2] == s[2]);
    }
    if s.len() >= 4 {
        assert((s + t)[3] == s[3]);
    }
}

/// Adding `n` to the valid-prefix length of a classification, as when the
/// classified sequence is preceded by `n` bytes of well-formed scalars.
pub open spec fn shift_class(c: Classification, n: int) -> Classification {
    match c {
        Classification::WellFormed => Classification::WellFormed,
        Classification::Malformed { valid_len, error_len } => (Classification::Malformed {
            valid_len: valid_len + n,
            error_len,
        }),
        Classification::Truncated { valid_len } => (Classification::Truncated {
            valid_len: valid_len + n,
        }),
    }
}

/// One step of [`classify`]: a well-formed scalar at the front shifts the
/// classification of the rest.
pub proof fn lemma_classify_step_scalar(s: Seq<u8>)
    requires
        s.len() > 0,
        front(s) is Scalar,
    ensures
        classify(s) == shift_class(classify(s.skip(front(s)->Scalar_len)), front(s)->Scalar_len),
{
}

proof fn bv_w1(b: u8)
    by (bit_vector)
    ensures
        b <= 0x7f ==> ((b & 0x7f) as u32) <= 0x7f,
{
}

proof fn bv_w2(b1: u8, b2: u8)
    by (bit_vector)
    requires
        0xc0 <= b1 <= 0xdf,
        0x80 <= b2 <= 0xbf,
    ensures
        ((((b1 & 0x1f) as u32) << 6) | ((b2 & 0x3f) as u32)) <= 0x7ff,
        (0x80 <= ((((b1 & 0x1f) as u32) << 6) | ((b2 & 0x3f) as u32))) <==> (0xc2 <= b1),
{
}

proof fn bv_w3(b1: u8, b2: u8, b3: u8)
    by (bit_vector)
    requires
        0xe0 <= b1 <= 0xef,
        0x80 <= b2 <= 0xbf,
        0x80 <= b3 <= 0xbf,
    ensures
        ({
            let cp = (((b1 & 0x0f) as u32) << 12) | (((b2 & 0x3f) as u32) << 6) | ((b3
                & 0x3f) as u32);
            &&& cp <= 0xffff
            &&& (0x800 <= cp) <==> (b1 != 0xe0 || 0xa0 <= b2)
            &&& (0xd800 <= cp && cp <= 0xdfff) <==> (b1 == 0xed && 0xa0 <= b2)
        }),
{
}

proof fn bv_w4(b1: u8, b2: u8, b3: u8, b4: u8)
    by (bit_vector)
    requires
        0xf0 <= b1 <= 0xf7,
        0x80 <= b2 <= 0xbf,
        0x80 <= b3 <= 0xbf,
        0x80 <= b4 <= 0xbf,
    ensures
        ({
            let cp = (((b1 & 0x07) as u32) << 18) | (((b2 & 0x3f) as u32) << 12) | (((b3
                & 0x3f) as u32) << 6) | ((b4 & 0x3f) as u32);
            &&& (0x10000 <= cp) <==> (b1 != 0xf0 || 0x90 <= b2)
            &&& (cp <= 0x10ffff) <==> (b1 <= 0xf3 || (b1 == 0xf4 && b2 <= 0x8f))
            &&& (0x10000 <= cp) ==> !(0xd800 <= cp && cp <= 0xdfff)
        }),
{
}

/// [`front`] agrees with `vstd::utf8` on which sequences begin with a
/// complete well-formed scalar encoding, and on its byte length.
pub proof fn lemma_front_scalar_iff(s: Seq<u8>)
    requires
        s.len() > 0,
    ensures
        match front(s) {
            FrontStatus::Scalar { len } => valid_first_scalar(s) && len == length_of_first_scalar(
                s,
            ),
            _ => !valid_first_scalar(s),
        },
{
    let b0 = s[0];
    if b0 <= 0x7f {
        bv_w1(b0);
    } else if 0xc0 <= b0 && b0 <= 0xdf {
        if s.len() >= 2 && is_continuation_byte(s[1]) {
            bv_w2(b0, s[1]);
            assert(codepoint_width_2(b0, s[1]) == ((((b0 & 0x1f) as u32) << 6) | ((s[1]
                & 0x3f) as u32)));
        }
    } else if 0xe0 <= b0 && b0 <= 0xef {
        if s.len() >= 3 && is_continuation_byte(s[1]) && is_continuation_byte(s[2]) {
            bv_w3(b0, s[1], s[2]);
            assert(codepoint_width_3(b0, s[1], s[2]) == ((((b0 & 0x0f) as u32) << 12) | (((s[1]
                & 0x3f) as u32) << 6) | ((s[2] & 0x3f) as u32)));
        }
    } else if 0xf0 <= b0 && b0 <= 0xf7 {
        if s.len() >= 4 && is_continuation_byte(s[1]) && is_continuation_byte(s[2])
            && is_continuation_byte(s[3]) {
            bv_w4(b0, s[1], s[2], s[3]);
            assert(codepoint_width_4(b0, s[1], s[2], s[3]) == ((((b0 & 0x07) as u32) << 18) | (((
            s[1] & 0x3f) as u32) << 12) | (((s[2] & 0x3f) as u32) << 6) | ((s[3] & 0x3f) as u32)));
        }
    }
}

/// [`classify`] reports a whole sequence well-formed exactly when
/// `vstd::utf8` does.
pub proof fn lemma_classify_wellformed(s: Seq<u8>)
    ensures
        (classify(s) is WellFormed) <==> valid_utf8(s),
    decreases s.len(),
{
    if s.len() > 0 {
        lemma_front_scalar_iff(s);
        lemma_front_bounds(s);
        match front(s) {
            FrontStatus::Scalar { len } => {
                assert(pop_first_scalar(s) =~= s.skip(len));
                lemma_classify_wellformed(s.skip(len));
            },
            _ => {
                assert(!valid_first_scalar(s));
            },
        }
    }
}

/// The prefix that [`classify`] reports is well-formed UTF-8.
pub proof fn lemma_classify_prefix_valid(s: Seq<u8>)
    ensures
        valid_utf8(s.take(valid_len_of(s))),
    decreases s.len(),
{
    broadcast use vstd::utf8::valid_utf8_concat;

    lemma_classify_bounds(s);
    if s.len() == 0 {
        assert(s.take(valid_len_of(s)) =~= Seq::<u8>::empty());
    } else {
        lemma_front_scalar_iff(s);
        lemma_front_bounds(s);
        match front(s) {
            FrontStatus::Scalar { len } => {
                let v = valid_len_of(s);
                lemma_classify_step_scalar(s);
                lemma_classify_bounds(s.skip(len));
                lemma_classify_prefix_valid(s.skip(len));
                let head = s.take(len);
                assert(valid_utf8(head)) by {
                    lemma_front_extend(head, s.skip(len));
                    assert(head + s.skip(len) =~= s);
                    lemma_front_scalar_iff(head);
                    assert(valid_first_scalar(head));
                    assert(length_of_first_scalar(head) == len);
                    assert(pop_first_scalar(head) =~= Seq::<u8>::empty());
                    assert(valid_utf8(Seq::<u8>::empty()));
                }
                assert(s.skip(len).take(v - len) =~= s.take(v).skip(len));
                assert(head + s.skip(len).take(v - len) =~= s.take(v));
            },
            _ => {
                assert(valid_len_of(s) == 0);
                assert(s.take(0) =~= Seq::<u8>::empty());
            },
        }
    }
}

/// Maximality of the reported prefix: no longer prefix of `s` is well-formed.
pub proof fn lemma_classify_maximal(s: Seq<u8>, i: int)
    requires
        0 <= i <= s.len(),
        valid_utf8(s.take(i)),
    ensures
        i <= valid_len_of(s),
    decreases s.len(),
{
    lemma_classify_bounds(s);
    if i > 0 {
        let p = s.take(i);
        assert(valid_first_scalar(p));
        lemma_front_scalar_iff(p);
        let n = front(p)->Scalar_len;
        lemma_front_bounds(p);
        lemma_front_extend(p, s.skip(i));
        assert(p + s.skip(i) =~= s);
        assert(front(s) == FrontStatus::Scalar { len: n });
        lemma_classify_step_scalar(s);
        assert(pop_first_scalar(p) =~= p.skip(n));
        assert(p.skip(n) =~= s.skip(n).take(i - n));
        lemma_classify_maximal(s.skip(n), i - n);
        assert(valid_len_of(s) == n + valid_len_of(s.skip(n))) by {
            lemma_classify_bounds(s.skip(n));
        }
    }
}

/// A truncated classification puts a suffix behind the valid prefix that is
/// itself classified as truncated with nothing valid in front.
pub proof fn lemma_classify_truncated_suffix(s: Seq<u8>)
    requires
        classify(s) is Truncated,
    ensures
        classify(s.skip(valid_len_of(s))) == (Classification::Truncated { valid_len: 0 }),
    decreases s.len(),
{
    lemma_classify_bounds(s);
    let v = valid_len_of(s);
    if s.len() > 0 {
        match front(s) {
            FrontStatus::Scalar { len } => {
                lemma_classify_step_scalar(s);
                lemma_classify_bounds(s.skip(len));
                lemma_classify_truncated_suffix(s.skip(len));
                assert(s.skip(len).skip(v - len) =~= s.skip(v));
            },
            FrontStatus::Malformed { len } => {
                assert(false);
            },
            FrontStatus::Truncated { len } => {
                assert(v == 0);
                assert(s.skip(0) =~= s);
            },
        }
    }
}

/// A malformed classification puts the malformed span right behind the valid
/// prefix, where the front of the remainder reports it.
pub proof fn lemma_classify_malformed_suffix(s: Seq<u8>)
    requires
        classify(s) is Malformed,
    ensures
        front(s.skip(valid_len_of(s))) == (FrontStatus::Malformed {
            len: classify(s)->Malformed_error_len,
        }),
    decreases s.len(),
{
    lemma_classify_bounds(s);
    let v = valid_len_of(s);
    if s.len() > 0 {
        match front(s) {
            FrontStatus::Scalar { len } => {
                lemma_classify_step_scalar(s);
                lemma_classify_bounds(s.skip(len));
                lemma_classify_malformed_suffix(s.skip(len));
                assert(s.skip(len).skip(v - len) =~= s.skip(v));
            },
            FrontStatus::Malformed { len } => {
                assert(v == 0);
                assert(s.skip(0) =~= s);
            },
            FrontStatus::Truncated { len } => {
                assert(false);
            },
        }
    }
}

/// The front of a sequence whose classification is truncated with nothing
/// valid in front covers the whole sequence.
pub proof fn lemma_pending_front(p: Seq<u8>)
    requires
        p.len() > 0,
        classify(p) == (Classification::Truncated { valid_len: 0 }),
    ensures
        front(p) == (FrontStatus::Truncated { len: p.len() as int }),
{
    lemma_front_bounds(p);
    match front(p) {
        FrontStatus::Scalar { len } => {
            lemma_classify_step_scalar(p);
            lemma_classify_bounds(p.skip(len));
            assert(false);
        },
        FrontStatus::Malformed { len } => {
            assert(false);
        },
        FrontStatus::Truncated { len } => {},
    }
}

/// Extending a pending (truncated, nothing valid) sequence: the front of the
/// extension never settles inside the pending bytes.  A complete scalar
/// reaches past them, a malformed span covers at least them, and a still
/// truncated front covers everything.
pub proof fn lemma_pending_extend(p: Seq<u8>, q: Seq<u8>)
    requires
        p.len() > 0,
        classify(p) == (Classification::Truncated { valid_len: 0 }),
    ensures
        match front(p + q) {
            FrontStatus::Scalar { len } => p.len() < len <= 4,
            FrontStatus::Malformed { len } => p.len() <= len <= 3,
            FrontStatus::Truncated { len } => len == p.len() + q.len(),
        },
{
    lemma_pending_front(p);
    let s = p + q;
    assert(s[0] == p[0]);
    if p.len() >= 2 {
        assert(s[1] == p[1]);
    }
    if p.len() >= 3 {
        assert(s[2] == p[2]);
    }
    lemma_front_bounds(s);
}

/// A malformed classification is final: appending more bytes can neither
/// extend the valid prefix nor rescue the malformed span.  This is what
/// separates a malformed span from a truncated suffix, which more input can
/// still resolve either way.
pub proof fn lemma_malformed_stable(s: Seq<u8>, t: Seq<u8>)
    requires
        classify(s) is Malformed,
    ensures
        classify(s + t) == classify(s),
    decreases s.len(),
{
    if s.len() > 0 {
        lemma_front_bounds(s);
        lemma_front_extend(s, t);
        match front(s) {
            FrontStatus::Scalar { len } => {
                lemma_classify_step_scalar(s);
                lemma_classify_step_scalar(s + t);
                assert((s + t).skip(len) =~= s.skip(len) + t);
                lemma_malformed_stable(s.skip(len), t);
            },
            FrontStatus::Malformed { len } => {},
            FrontStatus::Truncated { len } => {
                assert(false);
            },
        }
    }
}

/// The bytes of a malformed span, taken on their own, have no well-formed
/// prefix: standalone they are either malformed at once or a truncated
/// encoding with nothing valid in front.
pub proof fn lemma_malformed_span_prefix(s: Seq<u8>)
    requires
        s.len() > 0,
        front(s) is Malformed,
    ensures
        ({
            let e = front(s)->Malformed_len;
            valid_len_of(s.take(e)) == 0 && !(classify(s.take(e)) is WellFormed)
        }),
{
    let e = front(s)->Malformed_len;
    lemma_front_bounds(s);
    let b = s.take(e);
    assert(b[0] == s[0]);
    if e >= 2 {
        assert(b[1] == s[1]);
    }
    if e >= 3 {
        assert(b[2] == s[2]);
    }
}

/// A well-formed sequence in front splits replacement-character decoding:
/// the prefix decodes exactly and the rest is decoded on its own.
pub proof fn lemma_lossy_valid_prefix(a: Seq<u8>, c: Seq<u8>)
    requires
        valid_utf8(a),
    ensures
        lossy_decode(a + c) == decode_utf8(a) + lossy_decode(c),
    decreases a.len(),
{
    if a.len() == 0 {
        assert(a + c =~= c);
        assert(decode_utf8(a) + lossy_decode(c) =~= lossy_decode(c));
    } else {
        assert(valid_first_scalar(a));
        lemma_front_scalar_iff(a);
        let n = front(a)->Scalar_len;
        lemma_front_bounds(a);
        lemma_front_extend(a, c);
        assert(front(a + c) == FrontStatus::Scalar { len: n });
        assert((a + c)[0] == a[0]);
        if a.len() >= 2 {
            assert((a + c)[1] == a[1]);
        }
        if a.len() >= 3 {
            assert((a + c)[2] == a[2]);
        }
        if a.len() >= 4 {
            assert((a + c)[3] == a[3]);
        }
        assert(decode_first_scalar(a + c) == decode_first_scalar(a));
        assert(pop_first_scalar(a) =~= a.skip(n));
        assert((a + c).skip(n) =~= a.skip(n) + c);
        lemma_lossy_valid_prefix(a.skip(n), c);
        assert(lossy_decode(a + c) =~= decode_utf8(a) + lossy_decode(c));
    }
}

/// Replacement-character decoding of a well-formed sequence is exact decoding.
pub proof fn lemma_lossy_all_valid(s: Seq<u8>)
    requires
        valid_utf8(s),
    ensures
        lossy_decode(s) == decode_utf8(s),
{
    lemma_lossy_valid_prefix(s, Seq::<u8>::empty());
    assert(s + Seq::<u8>::empty() =~= s);
    assert(decode_utf8(s) + lossy_decode(Seq::<u8>::empty()) =~= decode_utf8(s));
}

} // verus!
