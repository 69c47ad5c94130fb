//! Push-based streaming decoder with replacement-character substitution.
//!
//! [`LossyDecoder`] accepts byte chunks of arbitrary sizes and hands decoded
//! text segments to a [`TextSink`] as they become decodable, substituting
//! U+FFFD for every error.  Its invariant states fragmentation independence:
//! however the input is split into chunks, the text handed to the sink plus
//! the final flush equals replacement-character decoding of the whole input.
use vstd::prelude::*;

use crate::decode;
use crate::scan::classify;
use crate::scan::front;
use crate::scan::lemma_classify_malformed_suffix;
use crate::scan::lemma_front_extend;
use crate::scan::lemma_lossy_valid_prefix;
use crate::scan::lemma_pending_front;
use crate::scan::lossy_decode;
use crate::scan::replacement;
use crate::scan::valid_len_of;
use crate::scan::FrontStatus;
use crate::spliced;
use crate::DecodeError;
use crate::Incomplete;
use crate::REPLACEMENT_CHARACTER;
use vstd::string::StringExecFns;
use vstd::string::StringSliceAdditionalSpecFns;
use vstd::utf8::decode_utf8;
use vstd::utf8::encode_utf8;

verus! {

/// Destination of decoded text segments.  The decoder promises never to push
/// an empty segment, and pushes segments in input order.
pub trait TextSink {
    /// All text pushed into the sink so far, in order.
    spec fn pushed(&self) -> Seq<char>;

    /// Receive the next text segment.  The decoder never pushes an empty
    /// segment.
    fn push_text(&mut self, s: &str)
        requires
            s@.len() > 0,
        ensures
            final(self).pushed() == old(self).pushed() + s@,
    ;
}

/// A sink that collects everything into an owned string.
pub struct StringSink {
    text: String,
}

impl TextSink for StringSink {
    closed spec fn pushed(&self) -> Seq<char> {
        self.text@
    }

    fn push_text(&mut self, s: &str)
        ensures
            final(self).pushed() == old(self).pushed() + s@,
    {
        self.text.append(s);
    }
}

impl StringSink {
    /// An empty sink.
    pub fn new() -> (r: StringSink)
        ensures
            r.pushed() == Seq::<char>::empty(),
    {
        StringSink { text: String::new() }
    }

    /// Hand out the collected text.
    pub fn into_string(self) -> (r: String)
        ensures
            r@ == self.pushed(),
    {
        self.text
    }
}

/// A push-based streaming decoder.
///
/// Feed it byte chunks of any size; decoded text goes to the sink with
/// U+FFFD substituted for every error.  Call [`LossyDecoder::finish`] when
/// the stream ends: a trailing incomplete sequence then contributes one final
/// replacement character.
pub struct LossyDecoder<S: TextSink> {
    sink: S,
    incomplete: Incomplete,
    fed: Ghost<Seq<u8>>,
    base: Ghost<Seq<char>>,
}

impl<S: TextSink> LossyDecoder<S> {
    /// All bytes fed so far, across every chunk.
    pub closed spec fn fed_bytes(self) -> Seq<u8> {
        self.fed@
    }

    /// Text handed to the sink by this decoder so far.
    pub closed spec fn emitted(self) -> Seq<char> {
        self.sink.pushed().skip(self.base@.len() as int)
    }

    /// What the sink held before this decoder was created.
    pub closed spec fn sink_base(self) -> Seq<char> {
        self.base@
    }

    /// The decoder's invariant.  The quantified clause is fragmentation
    /// independence: whatever bytes may still follow, replacement-character
    /// decoding of everything fed so far plus those bytes equals the text
    /// already emitted plus the decoding of the pending bytes and the rest.
    pub closed spec fn wf(self) -> bool {
        &&& self.incomplete.well_formed()
        &&& (self.incomplete.bytes().len() == 0 || self.incomplete.is_pending())
        &&& self.base@.is_prefix_of(self.sink.pushed())
        &&& forall|rest: Seq<u8>|
            #[trigger] lossy_decode(self.fed@ + rest) == self.emitted() + lossy_decode(
                self.incomplete.bytes() + rest,
            )
    }

    /// A fresh decoder around the given sink.
    pub fn new(sink: S) -> (r: LossyDecoder<S>)
        ensures
            r.wf(),
            r.fed_bytes() == Seq::<u8>::empty(),
            r.emitted() == Seq::<char>::empty(),
            r.sink_base() == sink.pushed(),
    {
        let incomplete = Incomplete::empty();
        let r = LossyDecoder {
            sink,
            incomplete,
            fed: Ghost(Seq::<u8>::empty()),
            base: Ghost(sink.pushed()),
        };
        proof {
            assert(r.emitted() =~= Seq::<char>::empty());
            assert forall|rest: Seq<u8>|
                #[trigger] lossy_decode(r.fed@ + rest) == r.emitted() + lossy_decode(
                    r.incomplete.bytes() + rest,
                ) by {
                assert(r.fed@ + rest =~= rest);
                assert(r.incomplete.bytes() + rest =~= rest);
                assert(r.emitted() + lossy_decode(rest) =~= lossy_decode(rest));
            }
        }
        r
    }

    /// Feed one chunk.  Text segments for everything that became decodable go
    /// to the sink, in input order, never empty; bytes of a trailing
    /// incomplete sequence are retained for the next chunk.
    #[verifier::rlimit(60)]
    pub fn feed(&mut self, input: &[u8])
        requires
            old(self).wf(),
        ensures
            final(self).wf(),
            final(self).fed_bytes() == old(self).fed_bytes() + input@,
            final(self).sink_base() == old(self).sink_base(),
    {
        let ghost fed0 = self.fed@;
        let ghost base = self.base@;
        proof {
            self.fed@ = fed0 + input@;
        }
        let n = input.len();
        let mut pos: usize = 0;
        if !self.incomplete.is_empty() {
            let ghost p = old(self).incomplete.bytes();
            let ghost sp = spliced(p, input@);
            let ghost emitted0 = old(self).emitted();
            match self.incomplete.try_complete(input) {
                None => {
                    proof {
                        assert forall|rest: Seq<u8>|
                            #[trigger] lossy_decode(self.fed@ + rest) == self.emitted()
                                + lossy_decode(self.incomplete.bytes() + rest) by {
                            assert(lossy_decode(fed0 + (input@ + rest)) == emitted0 + lossy_decode(
                                p + (input@ + rest),
                            ));
                            assert(fed0 + (input@ + rest) =~= self.fed@ + rest);
                            assert(p + (input@ + rest) =~= self.incomplete.bytes() + rest);
                        }
                    }
                    return ;
                },
                Some(pair) => {
                    let rest_slice = pair.1;
                    pos = n - rest_slice.len();
                    match pair.0 {
                        Ok(text) => {
                            let ghost v = valid_len_of(sp);
                            proof {
                                assert(text@.len() > 0) by {
                                    if text@.len() == 0 {
                                        assert(encode_utf8(text@) =~= Seq::<u8>::empty());
                                    }
                                }
                            }
                            self.sink.push_text(text);
                            proof {
                                assert forall|rest: Seq<u8>|
                                    #[trigger] lossy_decode(self.fed@ + rest) == self.emitted()
                                        + lossy_decode(input@.skip(pos as int) + rest) by {
                                    assert(lossy_decode(fed0 + (input@ + rest)) == emitted0
                                        + lossy_decode(p + (input@ + rest)));
                                    assert(fed0 + (input@ + rest) =~= self.fed@ + rest);
                                    assert(p + (input@ + rest) =~= sp.take(v) + (input@.skip(
                                        pos as int,
                                    ) + rest));
                                    lemma_lossy_valid_prefix(
                                        sp.take(v),
                                        input@.skip(pos as int) + rest,
                                    );
                                    assert(self.emitted() =~= emitted0 + text@);
                                    assert((emitted0 + text@) + lossy_decode(
                                        input@.skip(pos as int) + rest,
                                    ) =~= emitted0 + (decode_utf8(sp.take(v)) + lossy_decode(
                                        input@.skip(pos as int) + rest,
                                    )));
                                }
                            }
                        },
                        Err(bad) => {
                            let ghost e = classify(sp)->Malformed_error_len;
                            proof {
                                reveal_strlit("\u{FFFD}");
                                assert(REPLACEMENT_CHARACTER@ =~= seq![replacement()]);
                            }
                            self.sink.push_text(REPLACEMENT_CHARACTER);
                            proof {
                                assert forall|rest: Seq<u8>|
                                    #[trigger] lossy_decode(self.fed@ + rest) == self.emitted()
                                        + lossy_decode(input@.skip(pos as int) + rest) by {
                                    assert(lossy_decode(fed0 + (input@ + rest)) == emitted0
                                        + lossy_decode(p + (input@ + rest)));
                                    assert(fed0 + (input@ + rest) =~= self.fed@ + rest);
                                    let t = p + (input@ + rest);
                                    assert(t =~= sp + (input@.skip(
                                        crate::scan_fill_count(p, input@),
                                    ) + rest));
                                    lemma_front_extend(
                                        sp,
                                        input@.skip(crate::scan_fill_count(p, input@)) + rest,
                                    );
                                    assert(front(t) == FrontStatus::Malformed { len: e });
                                    assert(t.skip(e) =~= input@.skip(pos as int) + rest);
                                    assert(lossy_decode(t) == seq![replacement()] + lossy_decode(
                                        t.skip(e),
                                    ));
                                    assert(self.emitted() =~= emitted0 + seq![replacement()]);
                                    assert((emitted0 + seq![replacement()]) + lossy_decode(
                                        t.skip(e),
                                    ) =~= emitted0 + (seq![replacement()] + lossy_decode(
                                        t.skip(e),
                                    )));
                                }
                            }
                        },
                    }
                },
            }
        } else {
            proof {
                assert forall|rest: Seq<u8>|
                    #[trigger] lossy_decode(self.fed@ + rest) == self.emitted() + lossy_decode(
                        input@.skip(pos as int) + rest,
                    ) by {
                    assert(lossy_decode(fed0 + (input@ + rest)) == old(self).emitted()
                        + lossy_decode(old(self).incomplete.bytes() + (input@ + rest)));
                    assert(fed0 + (input@ + rest) =~= self.fed@ + rest);
                    assert(old(self).incomplete.bytes() + (input@ + rest) =~= input@.skip(
                        pos as int,
                    ) + rest);
                }
            }
        }
        loop
            invariant
                fed0 == old(self).fed_bytes(),
                base == old(self).sink_base(),
                self.incomplete.buffer_len == 0,
                0 <= pos <= n,
                n == input@.len(),
                self.fed@ == fed0 + input@,
                self.base@ == base,
                self.base@.is_prefix_of(self.sink.pushed()),
                forall|rest: Seq<u8>|
                    #[trigger] lossy_decode(self.fed@ + rest) == self.emitted() + lossy_decode(
                        input@.skip(pos as int) + rest,
                    ),
            decreases n - pos,
        {
            if pos == n {
                proof {
                    assert forall|rest: Seq<u8>|
                        #[trigger] lossy_decode(self.fed@ + rest) == self.emitted() + lossy_decode(
                            self.incomplete.bytes() + rest,
                        ) by {
                        assert(input@.skip(n as int) + rest =~= self.incomplete.bytes() + rest);
                    }
                }
                return ;
            }
            let ghost emitted0 = self.emitted();
            let slice = vstd::slice::slice_subrange(input, pos, n);
            let ghost t = input@.skip(pos as int);
            match decode(slice) {
                Ok(text) => {
                    proof {
                        assert(text@.len() > 0) by {
                            if text@.len() == 0 {
                                assert(encode_utf8(text@) =~= Seq::<u8>::empty());
                            }
                        }
                    }
                    self.sink.push_text(text);
                    proof {
                        assert forall|rest: Seq<u8>|
                            #[trigger] lossy_decode(self.fed@ + rest) == self.emitted()
                                + lossy_decode(input@.skip(n as int) + rest) by {
                            assert(lossy_decode(self.fed@ + rest) == emitted0 + lossy_decode(
                                t + rest,
                            ));
                            lemma_lossy_valid_prefix(t, rest);
                            assert(t + rest =~= t + (input@.skip(n as int) + rest));
                            assert(input@.skip(n as int) + rest =~= rest);
                            assert(self.emitted() =~= emitted0 + text@);
                            assert((emitted0 + text@) + lossy_decode(rest) =~= emitted0 + (
                            decode_utf8(t) + lossy_decode(rest)));
                        }
                    }
                    pos = n;
                },
                Err(e) => match e {
                    DecodeError::Invalid { valid_prefix, invalid_sequence, remaining_input } => {
                        let ghost v = valid_len_of(t);
                        let ghost el = classify(t)->Malformed_error_len;
                        if valid_prefix.len() > 0 {
                            proof {
                                assert(valid_prefix@.len() > 0) by {
                                    if valid_prefix@.len() == 0 {
                                        assert(encode_utf8(valid_prefix@) =~= Seq::<u8>::empty());
                                    }
                                }
                            }
                            self.sink.push_text(valid_prefix);
                        }
                        proof {
                            reveal_strlit("\u{FFFD}");
                            assert(REPLACEMENT_CHARACTER@ =~= seq![replacement()]);
                        }
                        self.sink.push_text(REPLACEMENT_CHARACTER);
                        let new_pos = n - remaining_input.len();
                        proof {
                            crate::scan::lemma_classify_bounds(t);
                            lemma_classify_malformed_suffix(t);
                            assert(valid_prefix@.len() == 0 ==> valid_prefix.spec_bytes()
                                =~= Seq::<u8>::empty());
                            assert(self.emitted() =~= emitted0 + valid_prefix@ + seq![
                                replacement(),
                            ]);
                            assert(new_pos == pos + v + el);
                            assert forall|rest: Seq<u8>|
                                #[trigger] lossy_decode(self.fed@ + rest) == self.emitted()
                                    + lossy_decode(input@.skip(new_pos as int) + rest) by {
                                assert(lossy_decode(self.fed@ + rest) == emitted0 + lossy_decode(
                                    t + rest,
                                ));
                                let tv = t.skip(v);
                                assert(t + rest =~= t.take(v) + (tv + rest));
                                lemma_lossy_valid_prefix(t.take(v), tv + rest);
                                lemma_front_extend(tv, rest);
                                assert(front(tv + rest) == FrontStatus::Malformed { len: el });
                                assert((tv + rest).skip(el) =~= input@.skip(new_pos as int)
                                    + rest);
                                assert(lossy_decode(tv + rest) == seq![replacement()]
                                    + lossy_decode(input@.skip(new_pos as int) + rest));
                                assert(valid_prefix@ == decode_utf8(t.take(v)));
                                assert((emitted0 + valid_prefix@ + seq![replacement()])
                                    + lossy_decode(input@.skip(new_pos as int) + rest) =~= emitted0
                                    + (decode_utf8(t.take(v)) + (seq![replacement()]
                                    + lossy_decode(input@.skip(new_pos as int) + rest))));
                            }
                        }
                        pos = new_pos;
                    },
                    DecodeError::Incomplete { valid_prefix, incomplete_suffix } => {
                        let ghost v = valid_len_of(t);
                        if valid_prefix.len() > 0 {
                            proof {
                                assert(valid_prefix@.len() > 0) by {
                                    if valid_prefix@.len() == 0 {
                                        assert(encode_utf8(valid_prefix@) =~= Seq::<u8>::empty());
                                    }
                                }
                            }
                            self.sink.push_text(valid_prefix);
                        }
                        self.incomplete = incomplete_suffix;
                        proof {
                            crate::scan::lemma_classify_bounds(t);
                            assert(valid_prefix@.len() == 0 ==> valid_prefix.spec_bytes()
                                =~= Seq::<u8>::empty());
                            assert(self.emitted() =~= emitted0 + valid_prefix@);
                            assert forall|rest: Seq<u8>|
                                #[trigger] lossy_decode(self.fed@ + rest) == self.emitted()
                                    + lossy_decode(self.incomplete.bytes() + rest) by {
                                assert(lossy_decode(self.fed@ + rest) == emitted0 + lossy_decode(
                                    t + rest,
                                ));
                                assert(t + rest =~= t.take(v) + (self.incomplete.bytes() + rest));
                                lemma_lossy_valid_prefix(
                                    t.take(v),
                                    self.incomplete.bytes() + rest,
                                );
                                assert(valid_prefix@ == decode_utf8(t.take(v)));
                                assert((emitted0 + valid_prefix@) + lossy_decode(
                                    self.incomplete.bytes() + rest,
                                ) =~= emitted0 + (decode_utf8(t.take(v)) + lossy_decode(
                                    self.incomplete.bytes() + rest,
                                )));
                            }
                        }
                        return ;
                    },
                },
            }
        }
    }

    /// Signal end of stream.  A pending incomplete sequence contributes one
    /// final replacement character; the sink then holds exactly the
    /// replacement-character decoding of every byte fed, after whatever it
    /// held before the decoder was created.
    pub fn finish(self) -> (sink: S)
        requires
            self.wf(),
        ensures
            sink.pushed() == self.sink_base() + lossy_decode(self.fed_bytes()),
    {
        let LossyDecoder { mut sink, incomplete, fed, base } = self;
        proof {
            assert(lossy_decode(fed@ + Seq::<u8>::empty()) == self.emitted() + lossy_decode(
                incomplete.bytes() + Seq::<u8>::empty(),
            ));
            assert(fed@ + Seq::<u8>::empty() =~= fed@);
            assert(incomplete.bytes() + Seq::<u8>::empty() =~= incomplete.bytes());
        }
        if !incomplete.is_empty() {
            proof {
                reveal_strlit("\u{FFFD}");
                assert(REPLACEMENT_CHARACTER@ =~= seq![replacement()]);
            }
            sink.push_text(REPLACEMENT_CHARACTER);
            proof {
                lemma_pending_front(incomplete.bytes());
                assert(lossy_decode(incomplete.bytes()) =~= seq![replacement()]);
                assert(sink.pushed() =~= base@ + lossy_decode(fed@));
            }
        } else {
            proof {
                assert(incomplete.bytes() =~= Seq::<u8>::empty());
                assert(lossy_decode(incomplete.bytes()) =~= Seq::<char>::empty());
                assert(sink.pushed() =~= base@ + lossy_decode(fed@));
            }
        }
        sink
    }
}

} // verus!
