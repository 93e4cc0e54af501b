//! Drives the request parser over a bounded slide buffer. Callers feed
//! chunks of the connection's byte stream as they arrive; what the parser
//! produces depends only on the concatenation of those chunks, never on
//! how they were fragmented.

use vstd::prelude::*;

verus! {

use vstd::slice::{slice_index_get, slice_subrange, slice_to_vec};
use crate::request::{
    Request,
    ReqModel,
    ParserState,
    new_request,
    init_model,
    step,
    StepOutcome,
    lemma_step_used,
    parse_request_line_spec,
    RlOutcome,
    cl_key,
    content_length_of,
};
use crate::headers::{parse_block, BlockOutcome, lemma_parse_block_used, lemma_parse_block_resumable};
use crate::text::{first_crlf, lemma_first_crlf_characterization};
use crate::error::ParseError;

/// Fixed capacity of the per-connection read buffer.
pub const READ_BUFFER_CAPACITY: usize = 1024;

/// States only advance; this rank witnesses it.
pub open spec fn state_rank(s: ParserState) -> int {
    match s {
        ParserState::StateRequestLine => 3,
        ParserState::StateHeaders => 2,
        ParserState::StateBody => 1,
        ParserState::Done => 0,
    }
}

/// The result of running the parser over a byte stream until it can no
/// longer advance.
pub enum DriveOutcome {
    /// The parser stopped: either done, or waiting for more input. `rest`
    /// holds the unconsumed bytes (empty once done: anything past the
    /// request is discarded, one request per connection).
    Stalled { m: ReqModel, rest: Seq<u8> },
    /// Parsing failed; `m` is the state left behind.
    Failed { kind: ParseError, m: ReqModel },
}

/// Runs [`step`] repeatedly on state `m` over buffer `b` until it stops:
/// at `Done`, at a failure, or when a step neither consumes nor changes
/// anything (more input is needed).
pub open spec fn drive(m: ReqModel, b: Seq<u8>) -> DriveOutcome
    decreases b.len(), state_rank(m.state),
    via drive_decreases
{
    if m.state == ParserState::Done {
        DriveOutcome::Stalled { m, rest: Seq::empty() }
    } else {
        match step(m, b) {
            StepOutcome::Fail { kind, m: m2 } => DriveOutcome::Failed { kind, m: m2 },
            StepOutcome::Progress { used, m: m2 } => {
                if used == 0 && m2 == m {
                    DriveOutcome::Stalled { m, rest: b }
                } else {
                    drive(m2, b.skip(used))
                }
            },
        }
    }
}

/// A step that consumes nothing either changes nothing or advances the
/// state.
proof fn lemma_step_zero(m: ReqModel, b: Seq<u8>)
    requires
        m.state != ParserState::Done,
        step(m, b) matches StepOutcome::Progress { used, m: m2 } && used == 0,
    ensures
        step(m, b) matches StepOutcome::Progress { used, m: m2 } && (m2 == m || state_rank(
            m2.state,
        ) < state_rank(m.state)),
{
    let o = step(m, b);
    let m2 = o->Progress_m;
    match m.state {
        ParserState::StateRequestLine => {
            lemma_first_crlf_characterization(b);
            match parse_request_line_spec(b) {
                RlOutcome::Incomplete => {},
                RlOutcome::Bad { .. } => {},
                RlOutcome::Line { .. } => {},
            }
        },
        ParserState::StateHeaders => {
            lemma_parse_block_zero(b, m.headers);
        },
        ParserState::StateBody => {
            if m.headers.contains_key(cl_key()) {
                match content_length_of(m.headers[cl_key()]) {
                    Some(cl) => {
                        if cl <= usize::MAX {
                            assert(b.len() == 0);
                            assert(m2.body =~= m.body);
                            if m2.state == m.state {
                                assert(m2 == m);
                            }
                        }
                    },
                    None => {},
                }
            }
        },
        ParserState::Done => {},
    }
}

/// A block parse that consumed nothing stored nothing.
proof fn lemma_parse_block_zero(b: Seq<u8>, m: Map<Seq<char>, Seq<char>>)
    ensures
        match parse_block(b, m) {
            BlockOutcome::Incomplete { used, hs } => used == 0 ==> hs == m,
            _ => true,
        },
{
    lemma_first_crlf_characterization(b);
    match first_crlf(b) {
        None => {},
        Some(i) => {
            if i > 0 {
                match crate::headers::parse_header_line(crate::text::trim_spec(b.take(i))) {
                    None => {},
                    Some(nv) => {
                        lemma_parse_block_used(
                            b.skip(i + 2),
                            crate::headers::spec_set(
                                m,
                                crate::text::ascii_chars_of(nv.0),
                                vstd::utf8::decode_utf8(nv.1),
                            ),
                        );
                    },
                }
            }
        },
    }
}

#[via_fn]
proof fn drive_decreases(m: ReqModel, b: Seq<u8>) {
    if m.state != ParserState::Done {
        lemma_step_used(m, b);
        match step(m, b) {
            StepOutcome::Progress { used, m: m2 } => {
                if !(used == 0 && m2 == m) && used == 0 {
                    lemma_step_zero(m, b);
                }
            },
            StepOutcome::Fail { .. } => {},
        }
    }
}

/// One unfolding of [`drive`] survives appending bytes: when a step made
/// progress on `b`, driving `b + ext` is driving the successor state over
/// the unconsumed remainder plus `ext`.
#[verifier::rlimit(100)]
proof fn lemma_drive_unfold_append(m: ReqModel, b: Seq<u8>, ext: Seq<u8>)
    requires
        m.state != ParserState::Done,
        step(m, b) matches StepOutcome::Progress { used, m: m2 } && !(used == 0 && m2 == m),
    ensures
        step(m, b) matches StepOutcome::Progress { used, m: m2 } && drive(m, b + ext) == drive(
            m2,
            b.skip(used) + ext,
        ),
{
    let o = step(m, b);
    let used = o->Progress_used;
    let m2 = o->Progress_m;
    lemma_step_used(m, b);
    match m.state {
        ParserState::StateRequestLine => {
            lemma_first_crlf_characterization(b);
            match first_crlf(b) {
                None => {
                    // Incomplete: used == 0 and m2 == m, excluded by requires.
                    assert(false);
                },
                Some(i) => {
                    crate::text::lemma_first_crlf_append(b, ext);
                    assert((b + ext).take(i) =~= b.take(i));
                    // Same line, same outcome, on the extended buffer.
                    assert(step(m, b + ext) == StepOutcome::Progress { used, m: m2 });
                    assert((b + ext).skip(used) =~= b.skip(used) + ext);
                },
            }
        },
        ParserState::StateHeaders => {
            let hs0 = m.headers;
            match parse_block(b, hs0) {
                BlockOutcome::Incomplete { used: u, hs } => {
                    assert(u == used);
                    if used == 0 {
                        lemma_parse_block_zero(b, hs0);
                        assert(m2 == m);
                        assert(false);
                    }
                    lemma_parse_block_resumable(b, ext, hs0);
                    lemma_parse_block_used(b, hs0);
                    let tail = b.skip(used) + ext;
                    assert((b + ext).skip(used) =~= tail);
                    lemma_parse_block_used(tail, hs);
                    match parse_block(tail, hs) {
                        BlockOutcome::Incomplete { used: u2, hs: hs2 } => {
                            let m3 = ReqModel { headers: hs2, ..m2 };
                            if u2 == 0 && hs2 == hs {
                                assert(parse_block(b + ext, hs0) == BlockOutcome::Incomplete {
                                    used: used + u2,
                                    hs: hs2,
                                });
                                assert(step(m, b + ext) == StepOutcome::Progress {
                                    used: used + u2,
                                    m: m3,
                                });
                                assert(m3 == m2);
                                assert(used > 0);
                                assert(drive(m, b + ext) == drive(m2, (b + ext).skip(used + u2)));
                                assert((b + ext).skip(used + u2) =~= tail);
                                // The right-hand side stalls immediately at the
                                // same state and remainder.
                                assert(step(m2, tail) == StepOutcome::Progress {
                                    used: 0,
                                    m: m3,
                                });
                            } else {
                                assert(step(m, b + ext) == StepOutcome::Progress {
                                    used: used + u2,
                                    m: m3,
                                });
                                assert(used + u2 > 0);
                                assert(drive(m, b + ext) == drive(m3, (b + ext).skip(used + u2)));
                                assert(step(m2, tail) == StepOutcome::Progress { used: u2, m: m3 });
                                assert(drive(m2, tail) == drive(m3, tail.skip(u2)));
                                assert((b + ext).skip(used + u2) =~= tail.skip(u2));
                            }
                        },
                        BlockOutcome::Complete { used: u2, hs: hs2 } => {
                            let m3 = ReqModel {
                                state: ParserState::StateBody,
                                headers: hs2,
                                ..m2
                            };
                            assert(step(m, b + ext) == StepOutcome::Progress {
                                used: used + u2,
                                m: m3,
                            });
                            assert(used + u2 > 0);
                            assert(drive(m, b + ext) == drive(m3, (b + ext).skip(used + u2)));
                            assert(step(m2, tail) == StepOutcome::Progress { used: u2, m: m3 });
                            assert(u2 > 0);
                            assert(drive(m2, tail) == drive(m3, tail.skip(u2)));
                            assert((b + ext).skip(used + u2) =~= tail.skip(u2));
                        },
                        BlockOutcome::Malformed { hs: hs2 } => {
                            let m3 = ReqModel { headers: hs2, ..m2 };
                            assert(step(m, b + ext) == StepOutcome::Fail {
                                kind: ParseError::MalformedHeader,
                                m: m3,
                            });
                            assert(step(m2, tail) == StepOutcome::Fail {
                                kind: ParseError::MalformedHeader,
                                m: m3,
                            });
                        },
                    }
                },
                BlockOutcome::Complete { used: u, hs } => {
                    lemma_parse_block_used(b, hs0);
                    crate::headers::lemma_parse_block_append_stable(b, ext, hs0);
                    assert(step(m, b + ext) == StepOutcome::Progress { used, m: m2 });
                    assert(used >= 2);
                    assert((b + ext).skip(used) =~= b.skip(used) + ext);
                },
                BlockOutcome::Malformed { .. } => {
                    assert(false);
                },
            }
        },
        ParserState::StateBody => {
            if !m.headers.contains_key(cl_key()) {
                // Independent of the buffer: both sides step to Done.
                assert(step(m, b + ext) == StepOutcome::Progress { used: 0, m: m2 });
                assert(drive(m, b + ext) == drive(m2, (b + ext).skip(0)));
                assert((b + ext).skip(0) =~= b + ext);
                assert(b.skip(0) =~= b);
            } else {
                match content_length_of(m.headers[cl_key()]) {
                    None => {
                        assert(false);
                    },
                    Some(cl) => {
                        assert(cl <= usize::MAX);
                        let lb = b.len() as int;
                        let le = ext.len() as int;
                        let need = cl - m.body.len();
                        assert(used == lb);
                        assert(b.skip(lb) =~= Seq::<u8>::empty());
                        assert(b.skip(used) + ext =~= ext);
                        // Evaluate the step on the extended buffer.
                        let take1 = if need < 0 {
                            0
                        } else if need > lb + le {
                            lb + le
                        } else {
                            need
                        };
                        let bodyx = m.body + (b + ext).take(take1);
                        let mx = ReqModel {
                            state: if bodyx.len() == cl {
                                ParserState::Done
                            } else {
                                ParserState::StateBody
                            },
                            body: bodyx,
                            ..m
                        };
                        assert(step(m, b + ext) == StepOutcome::Progress { used: lb + le, m: mx });
                        // And the step the successor state takes on `ext`.
                        if m2.state == ParserState::Done {
                            // The body completed within `b`: need <= lb.
                            assert(take1 == if need < 0 { 0 } else { need });
                            assert((b + ext).take(take1) =~= b.take(take1));
                            assert(mx == m2);
                            if lb + le == 0 {
                                assert(b + ext =~= b);
                                assert(drive(m, b + ext) == drive(m, b));
                            } else {
                                assert(drive(m, b + ext) == drive(mx, (b + ext).skip(lb + le)));
                                assert((b + ext).skip(lb + le) =~= Seq::<u8>::empty());
                                assert(drive(m2, ext) == DriveOutcome::Stalled {
                                    m: m2,
                                    rest: Seq::empty(),
                                });
                                assert(drive(mx, Seq::empty()) == DriveOutcome::Stalled {
                                    m: m2,
                                    rest: Seq::empty(),
                                });
                            }
                        } else {
                            // All the body bytes `b` offers went in, and the
                            // parser still waits (or the declared length was
                            // already overshot by a hostile starting state).
                            let take0 = if need < 0 {
                                0
                            } else if need > lb {
                                lb
                            } else {
                                need
                            };
                            assert(m2.body == m.body + b.take(take0));
                            if 0 <= need && need <= lb {
                                assert(m2.body.len() == cl);
                                assert(false);
                            }
                            if need < 0 {
                                assert(b.take(0) =~= Seq::<u8>::empty());
                                assert(m2.body =~= m.body);
                            } else {
                                assert(take0 == lb);
                                assert(b.take(lb) =~= b);
                            }
                            let need2 = cl - m2.body.len();
                            let take2 = if need2 < 0 {
                                0
                            } else if need2 > le {
                                le
                            } else {
                                need2
                            };
                            let body3 = m2.body + ext.take(take2);
                            let m3 = ReqModel {
                                state: if body3.len() == cl {
                                    ParserState::Done
                                } else {
                                    ParserState::StateBody
                                },
                                body: body3,
                                ..m2
                            };
                            assert(step(m2, ext) == StepOutcome::Progress { used: le, m: m3 });
                            if need < 0 {
                                assert((b + ext).take(take1) =~= Seq::<u8>::empty());
                                assert(ext.take(take2) =~= Seq::<u8>::empty());
                                assert(bodyx =~= body3);
                            } else {
                                assert(take1 == lb + take2);
                                assert((b + ext).take(lb + take2) =~= b + ext.take(take2));
                                assert(bodyx =~= body3);
                            }
                            assert(mx == m3);
                            if le == 0 && m3 == m2 {
                                assert(drive(m2, ext) == DriveOutcome::Stalled { m: m2, rest: ext });
                                assert(ext =~= Seq::<u8>::empty());
                                if lb + le == 0 {
                                    assert(b + ext =~= b);
                                } else {
                                    assert(drive(m, b + ext) == drive(mx, (b + ext).skip(lb + le)));
                                    assert((b + ext).skip(lb + le) =~= Seq::<u8>::empty());
                                    assert(step(m2, Seq::<u8>::empty()) == StepOutcome::Progress {
                                        used: 0,
                                        m: m3,
                                    });
                                    assert(drive(mx, Seq::empty()) == DriveOutcome::Stalled {
                                        m: m2,
                                        rest: Seq::empty(),
                                    });
                                    assert(drive(m2, ext) == DriveOutcome::Stalled {
                                        m: m2,
                                        rest: Seq::empty(),
                                    });
                                }
                            } else {
                                assert(drive(m2, ext) == drive(m3, ext.skip(le)));
                                assert(ext.skip(le) =~= Seq::<u8>::empty());
                                if lb + le == 0 {
                                    assert(b + ext =~= b);
                                    assert(b =~= Seq::<u8>::empty());
                                    assert(drive(m, b + ext) == drive(mx, Seq::<u8>::empty()));
                                } else {
                                    assert(drive(m, b + ext) == drive(mx, (b + ext).skip(lb + le)));
                                    assert((b + ext).skip(lb + le) =~= Seq::<u8>::empty());
                                }
                            }
                        }
                    },
                }
            }
        },
        ParserState::Done => {
            assert(false);
        },
    }
}

/// Driving is insensitive to how the stream is cut: once `drive` has
/// stopped on a prefix, feeding the unconsumed remainder together with
/// any further bytes continues exactly where it left off. The final
/// request is therefore a function of the whole byte stream alone,
/// however it was fragmented into reads.
pub proof fn lemma_drive_append(m: ReqModel, b: Seq<u8>, ext: Seq<u8>)
    requires
        drive(m, b) is Stalled,
    ensures
        drive(m, b + ext) == drive(
            drive(m, b)->Stalled_m,
            drive(m, b)->Stalled_rest + ext,
        ),
    decreases b.len(), state_rank(m.state),
{
    if m.state == ParserState::Done {
        assert(drive(m, b) == DriveOutcome::Stalled { m, rest: Seq::<u8>::empty() });
        assert(Seq::<u8>::empty() + ext =~= ext);
        assert(drive(m, b + ext) == DriveOutcome::Stalled { m, rest: Seq::<u8>::empty() });
        assert(drive(m, ext) == DriveOutcome::Stalled { m, rest: Seq::<u8>::empty() });
    } else {
        lemma_step_used(m, b);
        match step(m, b) {
            StepOutcome::Fail { .. } => {
                assert(false);
            },
            StepOutcome::Progress { used, m: m2 } => {
                if used == 0 && m2 == m {
                    // Stalled waiting for input: the remainder is all of `b`.
                    assert(drive(m, b) == DriveOutcome::Stalled { m, rest: b });
                } else {
                    lemma_drive_unfold_append(m, b, ext);
                    assert(drive(m, b) == drive(m2, b.skip(used)));
                    if used == 0 {
                        lemma_step_zero(m, b);
                        assert(b.skip(0) =~= b);
                    }
                    lemma_drive_append(m2, b.skip(used), ext);
                }
            },
        }
    }
}

/// A body byte is only ever captured under a Content-Length header.
pub open spec fn body_accounted(m: ReqModel) -> bool {
    m.body.len() == 0 || m.headers.contains_key(cl_key())
}

/// Once parsing is done under a Content-Length header, the body holds
/// exactly that many bytes.
pub open spec fn done_body_exact(m: ReqModel) -> bool {
    (m.state == ParserState::Done && m.headers.contains_key(cl_key())) ==> match content_length_of(
        m.headers[cl_key()],
    ) {
        Some(cl) => m.body.len() == cl,
        None => true,
    }
}

/// One step preserves both body invariants.
proof fn lemma_step_preserves_body(m: ReqModel, b: Seq<u8>)
    requires
        body_accounted(m),
        done_body_exact(m),
    ensures
        match step(m, b) {
            StepOutcome::Progress { m: m2, .. } => body_accounted(m2) && done_body_exact(m2),
            StepOutcome::Fail { .. } => true,
        },
{
    match m.state {
        ParserState::StateRequestLine => {},
        ParserState::StateHeaders => {
            if m.headers.contains_key(cl_key()) {
                crate::headers::lemma_parse_block_monotone(b, m.headers, cl_key());
            }
        },
        ParserState::StateBody => {},
        ParserState::Done => {},
    }
}

/// Driving preserves both body invariants to the stopped state.
proof fn lemma_drive_preserves_body(m: ReqModel, b: Seq<u8>)
    requires
        body_accounted(m),
        done_body_exact(m),
        drive(m, b) is Stalled,
    ensures
        body_accounted(drive(m, b)->Stalled_m),
        done_body_exact(drive(m, b)->Stalled_m),
    decreases b.len(), state_rank(m.state),
{
    if m.state == ParserState::Done {
    } else {
        lemma_step_used(m, b);
        lemma_step_preserves_body(m, b);
        match step(m, b) {
            StepOutcome::Fail { .. } => {},
            StepOutcome::Progress { used, m: m2 } => {
                if used == 0 && m2 == m {
                } else {
                    if used == 0 {
                        lemma_step_zero(m, b);
                    }
                    lemma_drive_preserves_body(m2, b.skip(used));
                }
            },
        }
    }
}

/// Without a Content-Length header the body is empty, whatever trailing
/// bytes the stream still offers.
pub proof fn lemma_no_content_length_empty_body(stream: Seq<u8>)
    requires
        drive(init_model(), stream) is Stalled,
        !drive(init_model(), stream)->Stalled_m.headers.contains_key(cl_key()),
    ensures
        drive(init_model(), stream)->Stalled_m.body == Seq::<u8>::empty(),
{
    lemma_drive_preserves_body(init_model(), stream);
    assert(drive(init_model(), stream)->Stalled_m.body =~= Seq::<u8>::empty());
}

/// A parse that completed under a Content-Length header captured exactly
/// that many body bytes, however many more the stream offered.
pub proof fn lemma_done_body_matches_content_length(stream: Seq<u8>)
    requires
        drive(init_model(), stream) is Stalled,
        drive(init_model(), stream)->Stalled_m.state == ParserState::Done,
        drive(init_model(), stream)->Stalled_m.headers.contains_key(cl_key()),
    ensures
        ({
            let m = drive(init_model(), stream)->Stalled_m;
            match content_length_of(m.headers[cl_key()]) {
                Some(cl) => m.body.len() == cl,
                None => true,
            }
        }),
{
    lemma_drive_preserves_body(init_model(), stream);
}

/// An incremental reader for one request: a fixed-capacity slide buffer
/// plus the request being parsed. Bytes go in through [`feed`]; the
/// parsed request comes out of [`take_request`].
pub struct RequestReader {
    buf: Vec<u8>,
    request: Request,
    failed: bool,
    fed: Ghost<Seq<u8>>,
}

impl RequestReader {
    /// Every byte fed so far, in order.
    pub closed spec fn stream(&self) -> Seq<u8> {
        self.fed@
    }

    /// True until a parse failure poisons the reader.
    pub closed spec fn ok(&self) -> bool {
        !self.failed
    }

    /// How many bytes sit unconsumed in the buffer.
    pub closed spec fn buffered(&self) -> int {
        self.buf@.len() as int
    }

    /// The reader's state is exactly what driving the parser over the fed
    /// stream yields.
    pub closed spec fn wf(&self) -> bool {
        self.buf@.len() <= READ_BUFFER_CAPACITY && self.request.wf() && (!self.failed
            ==> drive(init_model(), self.fed@) == DriveOutcome::Stalled {
            m: self.request.model(),
            rest: self.buf@,
        })
    }

    /// A fresh reader with an empty stream.
    pub fn new() -> (r: RequestReader)
        ensures
            r.wf(),
            r.ok(),
            r.stream() == Seq::<u8>::empty(),
            r.buffered() == 0,
    {
        let r = RequestReader {
            buf: Vec::new(),
            request: new_request(),
            failed: false,
            fed: Ghost(Seq::empty()),
        };
        proof {
            let e = Seq::<u8>::empty();
            lemma_first_crlf_characterization(e);
            assert(step(init_model(), e) == StepOutcome::Progress { used: 0, m: init_model() });
            assert(drive(init_model(), e) == DriveOutcome::Stalled { m: init_model(), rest: e });
        }
        r
    }

    /// Room left in the read buffer; feed at most this many bytes.
    pub fn free_space(&self) -> (r: usize)
        requires
            self.wf(),
        ensures
            r == READ_BUFFER_CAPACITY - self.buffered(),
    {
        READ_BUFFER_CAPACITY - self.buf.len()
    }

    /// True once the whole request has been parsed.
    pub fn is_done(&self) -> (r: bool)
        requires
            self.wf(),
            self.ok(),
        ensures
            r == (drive(init_model(), self.stream()) matches DriveOutcome::Stalled { m, .. }
                && m.state == ParserState::Done),
    {
        self.request.is_done()
    }

    /// Feeds the next chunk of the stream and advances the parser as far
    /// as it will go. Returns whether the request is complete; fails with
    /// the parse error the stream earned, or with `LineTooLong` when a
    /// line outgrew the buffer so the parse can never advance.
    pub fn feed(&mut self, chunk: &[u8]) -> (r: Result<bool, ParseError>)
        requires
            old(self).wf(),
            old(self).ok(),
            chunk@.len() <= READ_BUFFER_CAPACITY - old(self).buffered(),
        ensures
            final(self).wf(),
            final(self).stream() == old(self).stream() + chunk@,
            ({
                let fok = final(self).ok();
                let fbuffered = final(self).buffered();
                match drive(init_model(), old(self).stream() + chunk@) {
                    DriveOutcome::Failed { kind, .. } => r == Err::<bool, ParseError>(kind) && !fok,
                    DriveOutcome::Stalled { m, rest } => {
                        if m.state == ParserState::Done {
                            r == Ok::<bool, ParseError>(true) && fok
                        } else if rest.len() == READ_BUFFER_CAPACITY {
                            r == Err::<bool, ParseError>(ParseError::LineTooLong) && !fok
                        } else {
                            r == Ok::<bool, ParseError>(false) && fok && fbuffered == rest.len()
                        }
                    },
                }
            }),
    {
        let ghost fed0 = self.fed@;
        let ghost buf0 = self.buf@;
        let ghost m_start = self.request.model();
        // Append the chunk to the buffer.
        let clen = chunk.len();
        let mut k: usize = 0;
        while k < clen
            invariant
                clen == chunk@.len(),
                k <= clen,
                self.buf@ == buf0 + chunk@.take(k as int),
                self.request == old(self).request,
                self.failed == old(self).failed,
                self.fed == old(self).fed,
                buf0.len() + clen <= READ_BUFFER_CAPACITY,
            decreases clen - k,
        {
            self.buf.push(*slice_index_get(chunk, k));
            proof {
                assert(self.buf@ =~= buf0 + chunk@.take(k + 1));
            }
            k = k + 1;
        }
        proof {
            assert(chunk@.take(clen as int) =~= chunk@);
        }
        self.fed = Ghost(fed0 + chunk@);
        proof {
            lemma_drive_append(init_model(), fed0, chunk@);
            assert(drive(init_model(), self.fed@) == drive(m_start, buf0 + chunk@));
        }
        // Let the parser consume as much as it can; every path out of the
        // loop returns.
        loop
            invariant
                self.request.wf(),
                !self.failed,
                self.buf@.len() <= READ_BUFFER_CAPACITY,
                self.fed@ == old(self).fed@ + chunk@,
                drive(init_model(), self.fed@) == drive(self.request.model(), self.buf@),
            decreases self.buf@.len(), state_rank(self.request.state),
        {
            let st0 = self.request.state;
            if st0 == ParserState::Done {
                proof {
                    assert(drive(self.request.model(), self.buf@) == DriveOutcome::Stalled {
                        m: self.request.model(),
                        rest: Seq::<u8>::empty(),
                    });
                }
                self.buf.clear();
                return Ok(true);
            }
            let ghost m_cur = self.request.model();
            let ghost b_cur = self.buf@;
            proof {
                lemma_step_used(m_cur, b_cur);
            }
            match self.request.parse(self.buf.as_slice()) {
                Err(e) => {
                    self.failed = true;
                    proof {
                        assert(drive(m_cur, b_cur) == DriveOutcome::Failed {
                            kind: e,
                            m: self.request.model(),
                        });
                    }
                    return Err(e);
                },
                Ok(used) => {
                    let blen = self.buf.len();
                    let state_same = self.request.state == st0;
                    if used == 0 && state_same {
                        proof {
                            lemma_step_zero(m_cur, b_cur);
                            assert(self.request.model() == m_cur);
                            assert(drive(m_cur, b_cur) == DriveOutcome::Stalled {
                                m: m_cur,
                                rest: b_cur,
                            });
                        }
                        if self.buf.len() == READ_BUFFER_CAPACITY {
                            self.failed = true;
                            return Err(ParseError::LineTooLong);
                        }
                        return Ok(false);
                    }
                    let nb = slice_to_vec(slice_subrange(self.buf.as_slice(), used, blen));
                    self.buf = nb;
                    proof {
                        assert(self.buf@ =~= b_cur.skip(used as int));
                        assert(drive(m_cur, b_cur) == drive(self.request.model(), self.buf@));
                        if used == 0 {
                            lemma_step_zero(m_cur, b_cur);
                            assert(state_rank(self.request.state) < state_rank(m_cur.state));
                        }
                    }
                },
            }
        }
    }

    /// Hands the parsed request out; the reader is spent.
    pub fn take_request(self) -> (r: Request)
        requires
            self.wf(),
            self.ok(),
            drive(init_model(), self.stream()) matches DriveOutcome::Stalled { m, .. }
                && m.state == ParserState::Done,
        ensures
            r.wf(),
            r.model() == drive(init_model(), self.stream())->Stalled_m,
    {
        self.request
    }
}

} // verus!
