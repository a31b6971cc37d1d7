//! Incremental JPEG frame parser. The input is an unframed byte stream;
//! the only structure is the JPEG marker grammar itself. The parser
//! synchronizes on the start-of-image sequence `FF D8 FF`, walks the
//! marker grammar (length-prefixed segments, byte-stuffing escapes and
//! restart markers inside scan data), emits each completed frame at the
//! end-of-image marker, and abandons the frame and resynchronizes on any
//! grammar violation outside scan data. It consumes one byte at a time,
//! so the chunking of the underlying reads cannot affect what it emits.
use vstd::prelude::*;

verus! {

/// Where in the marker grammar the parser stands.
///
/// `Sync0`/`Sync1`/`Sync2` scan for the start-of-image sequence: they
/// record how long a suffix of the bytes seen so far matches a prefix of
/// `FF D8 FF`. The remaining phases are inside a frame: `MarkerByte`
/// expects the marker type byte after an `FF`; `Len0`/`Len1` read the
/// two big-endian length bytes of a segment; `Payload` counts down the
/// segment's payload; `Check` looks at the byte after a payload, which
/// must start the next marker unless scan data follows; `ScanSkip`
/// consumes entropy-coded bytes until the next `FF`.
pub enum Phase {
    Sync0,
    Sync1,
    Sync2,
    MarkerByte,
    Len0,
    Len1(u8),
    Payload(usize),
    Check,
    ScanSkip,
}

/// The parser's abstract state: the phase, the bytes of the frame
/// assembled so far, and whether the current position lies inside
/// entropy-coded scan data (where `FF` escapes and restart markers are
/// legitimate).
#[verifier::ext_equal]
pub ghost struct State {
    pub phase: Phase,
    pub buf: Seq<u8>,
    pub inside_scan: bool,
}

/// The state before any byte has been consumed, and again after every
/// emitted or abandoned frame: scanning for a start-of-image sequence
/// with nothing buffered.
pub open spec fn init_state() -> State {
    State { phase: Phase::Sync0, buf: Seq::empty(), inside_scan: false }
}

/// One transition of the parser on one input byte: the next state, the
/// frames emitted by this byte (none, or exactly one), and whether this
/// byte violated the marker grammar and made the parser abandon the
/// frame under assembly.
pub open spec fn step(s: State, b: u8) -> (State, Seq<Seq<u8>>, bool) {
    match s.phase {
        Phase::Sync0 => {
            if b == 0xff {
                (State { phase: Phase::Sync1, ..s }, Seq::empty(), false)
            } else {
                (s, Seq::empty(), false)
            }
        },
        Phase::Sync1 => {
            if b == 0xd8 {
                (State { phase: Phase::Sync2, ..s }, Seq::empty(), false)
            } else if b == 0xff {
                (State { phase: Phase::Sync1, ..s }, Seq::empty(), false)
            } else {
                (State { phase: Phase::Sync0, ..s }, Seq::empty(), false)
            }
        },
        Phase::Sync2 => {
            if b == 0xff {
                (
                    State {
                        phase: Phase::MarkerByte,
                        buf: seq![0xffu8, 0xd8u8, 0xffu8],
                        inside_scan: false,
                    },
                    Seq::empty(),
                    false,
                )
            } else {
                (State { phase: Phase::Sync0, ..s }, Seq::empty(), false)
            }
        },
        Phase::MarkerByte => {
            let nb = s.buf.push(b);
            if b == 0xd9 {
                (init_state(), seq![nb], false)
            } else if b == 0x00 || (0xd0 <= b && b <= 0xd7) {
                if s.inside_scan {
                    (State { phase: Phase::ScanSkip, buf: nb, ..s }, Seq::empty(), false)
                } else {
                    (init_state(), Seq::empty(), true)
                }
            } else if 0xc0 <= b && b <= 0xfe {
                (
                    State { phase: Phase::Len0, buf: nb, inside_scan: b == 0xda },
                    Seq::empty(),
                    false,
                )
            } else {
                (init_state(), Seq::empty(), true)
            }
        },
        Phase::Len0 => {
            (State { phase: Phase::Len1(b), buf: s.buf.push(b), ..s }, Seq::empty(), false)
        },
        Phase::Len1(l1) => {
            let nb = s.buf.push(b);
            let v = (l1 as int) * 256 + (b as int);
            if v < 2 {
                (init_state(), Seq::empty(), true)
            } else if v == 2 {
                (State { phase: Phase::Check, buf: nb, ..s }, Seq::empty(), false)
            } else {
                (
                    State { phase: Phase::Payload((v - 2) as usize), buf: nb, ..s },
                    Seq::empty(),
                    false,
                )
            }
        },
        Phase::Payload(rem) => {
            let nb = s.buf.push(b);
            if rem <= 1 {
                (State { phase: Phase::Check, buf: nb, ..s }, Seq::empty(), false)
            } else {
                (
                    State { phase: Phase::Payload((rem - 1) as usize), buf: nb, ..s },
                    Seq::empty(),
                    false,
                )
            }
        },
        Phase::Check => {
            let nb = s.buf.push(b);
            if b == 0xff {
                (State { phase: Phase::MarkerByte, buf: nb, ..s }, Seq::empty(), false)
            } else if s.inside_scan {
                (State { phase: Phase::ScanSkip, buf: nb, ..s }, Seq::empty(), false)
            } else {
                (init_state(), Seq::empty(), true)
            }
        },
        Phase::ScanSkip => {
            let nb = s.buf.push(b);
            if b == 0xff {
                (State { phase: Phase::MarkerByte, buf: nb, ..s }, Seq::empty(), false)
            } else {
                (State { phase: Phase::ScanSkip, buf: nb, ..s }, Seq::empty(), false)
            }
        },
    }
}

/// The parser run over a whole input: the state after consuming every
/// byte of `input` from `s`, and the frames emitted along the way, in
/// emission order.
pub open spec fn run(s: State, input: Seq<u8>) -> (State, Seq<Seq<u8>>)
    decreases input.len(),
{
    if input.len() == 0 {
        (s, Seq::empty())
    } else {
        let r = step(s, input[0]);
        let rest = run(r.0, input.skip(1));
        (rest.0, r.1 + rest.1)
    }
}

/// What one call of `Parser::push` reports: nothing yet, a grammar
/// violation that abandoned the frame under assembly, or a completed
/// frame.
pub enum PushOutcome {
    Pending,
    Abandoned,
    Frame(Vec<u8>),
}

/// The incremental parser: one per input stream, fed one byte at a time.
pub struct Parser {
    phase: Phase,
    buf: Vec<u8>,
    inside_scan: bool,
}

impl Parser {
    /// The abstract state this parser stands in.
    pub closed spec fn view(&self) -> State {
        State { phase: self.phase, buf: self.buf@, inside_scan: self.inside_scan }
    }

    /// A parser that has consumed nothing: scanning for a start-of-image
    /// sequence.
    pub fn new() -> (p: Parser)
        ensures
            p@ == init_state(),
    {
        let p = Parser { phase: Phase::Sync0, buf: Vec::new(), inside_scan: false };
        proof {
            assert(p@ =~= init_state());
        }
        p
    }

    /// Consume one byte: exactly the `step` transition of the abstract
    /// machine, reporting a completed frame or an abandoned one.
    pub fn push(&mut self, b: u8) -> (out: PushOutcome)
        ensures
            final(self)@ == step(old(self)@, b).0,
            match out {
                PushOutcome::Frame(f) => step(old(self)@, b).1 == seq![f@] && !step(
                    old(self)@,
                    b,
                ).2,
                PushOutcome::Pending => step(old(self)@, b).1 == Seq::<Seq<u8>>::empty() && !step(
                    old(self)@,
                    b,
                ).2,
                PushOutcome::Abandoned => step(old(self)@, b).1 == Seq::<Seq<u8>>::empty() && step(
                    old(self)@,
                    b,
                ).2,
            },
    {
        match self.phase {
            Phase::Sync0 => {
                if b == 0xff {
                    self.phase = Phase::Sync1;
                }
                proof {
                    assert(self@ =~= step(old(self)@, b).0);
                }
                PushOutcome::Pending
            },
            Phase::Sync1 => {
                if b == 0xd8 {
                    self.phase = Phase::Sync2;
                } else if b != 0xff {
                    self.phase = Phase::Sync0;
                }
                proof {
                    assert(self@ =~= step(old(self)@, b).0);
                }
                PushOutcome::Pending
            },
            Phase::Sync2 => {
                if b == 0xff {
                    self.phase = Phase::MarkerByte;
                    self.buf = Vec::new();
                    self.buf.push(0xff);
                    self.buf.push(0xd8);
                    self.buf.push(0xff);
                    self.inside_scan = false;
                } else {
                    self.phase = Phase::Sync0;
                }
                proof {
                    assert(self@ =~= step(old(self)@, b).0);
                }
                PushOutcome::Pending
            },
            Phase::MarkerByte => {
                self.buf.push(b);
                if b == 0xd9 {
                    let mut taken: Vec<u8> = Vec::new();
                    core::mem::swap(&mut taken, &mut self.buf);
                    self.phase = Phase::Sync0;
                    self.inside_scan = false;
                    proof {
                        assert(self@ =~= step(old(self)@, b).0);
                        assert(step(old(self)@, b).1 =~= seq![taken@]);
                    }
                    PushOutcome::Frame(taken)
                } else if b == 0x00 || (0xd0 <= b && b <= 0xd7) {
                    if self.inside_scan {
                        self.phase = Phase::ScanSkip;
                        proof {
                            assert(self@ =~= step(old(self)@, b).0);
                        }
                        PushOutcome::Pending
                    } else {
                        self.abandon();
                        proof {
                            assert(self@ =~= step(old(self)@, b).0);
                        }
                        PushOutcome::Abandoned
                    }
                } else if 0xc0 <= b && b <= 0xfe {
                    self.inside_scan = b == 0xda;
                    self.phase = Phase::Len0;
                    proof {
                        assert(self@ =~= step(old(self)@, b).0);
                    }
                    PushOutcome::Pending
                } else {
                    self.abandon();
                    proof {
                        assert(self@ =~= step(old(self)@, b).0);
                    }
                    PushOutcome::Abandoned
                }
            },
            Phase::Len0 => {
                self.buf.push(b);
                self.phase = Phase::Len1(b);
                proof {
                    assert(self@ =~= step(old(self)@, b).0);
                }
                PushOutcome::Pending
            },
            Phase::Len1(l1) => {
                self.buf.push(b);
                let v: usize = (l1 as usize) * 256 + (b as usize);
                if v < 2 {
                    self.abandon();
                    proof {
                        assert(self@ =~= step(old(self)@, b).0);
                    }
                    PushOutcome::Abandoned
                } else if v == 2 {
                    self.phase = Phase::Check;
                    proof {
                        assert(self@ =~= step(old(self)@, b).0);
                    }
                    PushOutcome::Pending
                } else {
                    self.phase = Phase::Payload(v - 2);
                    proof {
                        assert(self@ =~= step(old(self)@, b).0);
                    }
                    PushOutcome::Pending
                }
            },
            Phase::Payload(rem) => {
                self.buf.push(b);
                if rem <= 1 {
                    self.phase = Phase::Check;
                } else {
                    self.phase = Phase::Payload(rem - 1);
                }
                proof {
                    assert(self@ =~= step(old(self)@, b).0);
                }
                PushOutcome::Pending
            },
            Phase::Check => {
                self.buf.push(b);
                if b == 0xff {
                    self.phase = Phase::MarkerByte;
                    proof {
                        assert(self@ =~= step(old(self)@, b).0);
                    }
                    PushOutcome::Pending
                } else if self.inside_scan {
                    self.phase = Phase::ScanSkip;
                    proof {
                        assert(self@ =~= step(old(self)@, b).0);
                    }
                    PushOutcome::Pending
                } else {
                    self.abandon();
                    proof {
                        assert(self@ =~= step(old(self)@, b).0);
                    }
                    PushOutcome::Abandoned
                }
            },
            Phase::ScanSkip => {
                self.buf.push(b);
                if b == 0xff {
                    self.phase = Phase::MarkerByte;
                }
                proof {
                    assert(self@ =~= step(old(self)@, b).0);
                }
                PushOutcome::Pending
            },
        }
    }

    /// Discard the frame under assembly and return to synchronization.
    fn abandon(&mut self)
        ensures
            final(self)@ == init_state(),
    {
        self.phase = Phase::Sync0;
        self.buf = Vec::new();
        self.inside_scan = false;
        proof {
            assert(self@ =~= init_state());
        }
    }

    /// Consume one chunk of input, collecting every frame completed
    /// within it: exactly the `run` of the abstract machine over the
    /// chunk. Chunk boundaries carry no meaning: feeding `a` then `b`
    /// leaves the parser as one feed of `a + b` would.
    pub fn feed(&mut self, chunk: &Vec<u8>) -> (frames: Vec<Vec<u8>>)
        ensures
            final(self)@ == run(old(self)@, chunk@).0,
            frames@.map_values(|f: Vec<u8>| f@) == run(old(self)@, chunk@).1,
    {
        let mut frames: Vec<Vec<u8>> = Vec::new();
        let mut i: usize = 0;
        proof {
            assert(chunk@.skip(0) =~= chunk@);
            assert(frames@.map_values(|f: Vec<u8>| f@) + run(self@, chunk@).1 =~= run(
                self@,
                chunk@,
            ).1);
        }
        while i < chunk.len()
            invariant
                i <= chunk.len(),
                run(old(self)@, chunk@).0 == run(self@, chunk@.skip(i as int)).0,
                run(old(self)@, chunk@).1 == frames@.map_values(|f: Vec<u8>| f@) + run(
                    self@,
                    chunk@.skip(i as int),
                ).1,
            decreases chunk.len() - i,
        {
            let ghost fs_pre = frames@.map_values(|f: Vec<u8>| f@);
            let ghost s_pre = self@;
            let ghost rest = chunk@.skip(i as int);
            let out = self.push(chunk[i]);
            proof {
                assert(rest[0] == chunk@[i as int]);
                assert(rest.skip(1) =~= chunk@.skip(i as int + 1));
                assert(run(s_pre, rest).0 == run(self@, chunk@.skip(i as int + 1)).0);
                assert(run(s_pre, rest).1 == step(s_pre, rest[0]).1 + run(
                    self@,
                    chunk@.skip(i as int + 1),
                ).1);
            }
            match out {
                PushOutcome::Frame(f) => {
                    let ghost fv = f@;
                    frames.push(f);
                    proof {
                        assert(frames@.map_values(|g: Vec<u8>| g@) =~= fs_pre.push(fv));
                        assert(fs_pre + (seq![fv] + run(self@, chunk@.skip(i as int + 1)).1)
                            =~= fs_pre.push(fv) + run(self@, chunk@.skip(i as int + 1)).1);
                    }
                },
                _ => {
                    proof {
                        assert(fs_pre + (Seq::<Seq<u8>>::empty() + run(
                            self@,
                            chunk@.skip(i as int + 1),
                        ).1) =~= fs_pre + run(self@, chunk@.skip(i as int + 1)).1);
                    }
                },
            }
            i = i + 1;
        }
        proof {
            assert(chunk@.skip(chunk@.len() as int) =~= Seq::<u8>::empty());
            assert(frames@.map_values(|f: Vec<u8>| f@) + Seq::<Seq<u8>>::empty()
                =~= frames@.map_values(|f: Vec<u8>| f@));
        }
        frames
    }
}

} // verus!
