//! The JPEG marker grammar, stated structurally over byte sequences, and
//! the theorems tying it to the incremental parser: a well-formed image
//! is emitted exactly once and byte-for-byte; noise between images is
//! discarded; a grammar violation abandons the frame and the parser
//! resynchronizes on the next start-of-image sequence.
use crate::parser::{init_state, run, step, Phase, State};
use vstd::prelude::*;

verus! {

/// The bytes `t` that follow an `FF` form a well-formed rest-of-image:
/// `t[0]` is the marker type byte, and the grammar runs through to an
/// end-of-image marker as the last byte. `inside_scan` says whether the
/// position lies in entropy-coded scan data, where byte-stuffing escapes
/// and restart markers are legitimate.
pub open spec fn tail_ok(t: Seq<u8>, inside_scan: bool) -> bool
    decreases t.len(), 1int,
{
    t.len() > 0 && {
        let b = t[0];
        if b == 0xd9 {
            t.len() == 1
        } else if b == 0x00 || (0xd0 <= b && b <= 0xd7) {
            inside_scan && scan_ok(t.skip(1), inside_scan)
        } else if 0xc0 <= b && b <= 0xfe {
            let isc2 = b == 0xda;
            t.len() >= 3 && {
                let v = (t[1] as int) * 256 + (t[2] as int);
                v >= 2 && t.len() >= v + 2 && {
                    let chk = t[v + 1];
                    if chk == 0xff {
                        tail_ok(t.skip(v + 2), isc2)
                    } else if isc2 {
                        scan_ok(t.skip(v + 2), isc2)
                    } else {
                        false
                    }
                }
            }
        } else {
            false
        }
    }
}

/// The bytes `t` are entropy-coded filler up to the next `FF`, after
/// which the marker grammar continues well-formed.
pub open spec fn scan_ok(t: Seq<u8>, inside_scan: bool) -> bool
    decreases t.len(), 0int,
{
    t.len() > 0 && {
        if t[0] == 0xff {
            tail_ok(t.skip(1), inside_scan)
        } else {
            scan_ok(t.skip(1), inside_scan)
        }
    }
}

/// A complete well-formed JPEG image: the start-of-image sequence
/// `FF D8 FF` followed by a marker-grammar-consistent body ending in the
/// end-of-image marker `D9`.
pub open spec fn valid_jpeg(b: Seq<u8>) -> bool {
    b.len() >= 4 && b[0] == 0xff && b[1] == 0xd8 && b[2] == 0xff && tail_ok(b.skip(3), false)
}

/// Bytes that cannot be mistaken for the start of a marker: no `FF`
/// anywhere. Framing noise of this shape between images is skipped
/// without side effect.
pub open spec fn marker_free(n: Seq<u8>) -> bool {
    forall|i: int| 0 <= i < n.len() ==> n[i] != 0xff
}

/// Feeding `a + b` is the same as feeding `a`, then `b`: the final state
/// agrees and the emitted frames concatenate. Chunk boundaries in the
/// input stream are invisible to the parser.
pub proof fn lemma_run_concat(s: State, a: Seq<u8>, b: Seq<u8>)
    ensures
        run(s, a + b).0 == run(run(s, a).0, b).0,
        run(s, a + b).1 == run(s, a).1 + run(run(s, a).0, b).1,
    decreases a.len(),
{
    if a.len() == 0 {
        assert(a + b =~= b);
        assert(run(s, a).1 + run(run(s, a).0, b).1 =~= run(s, b).1);
    } else {
        let r = step(s, a[0]);
        assert((a + b)[0] == a[0]);
        assert((a + b).skip(1) =~= a.skip(1) + b);
        lemma_run_concat(r.0, a.skip(1), b);
        assert(run(s, a + b).1 =~= run(s, a).1 + run(run(s, a).0, b).1);
    }
}

/// A byte that violates the marker grammar makes the parser abandon the
/// frame: nothing is emitted for it and the state returns to the
/// initial synchronization state.
pub proof fn lemma_violation_resets(s: State, b: u8)
    requires
        step(s, b).2,
    ensures
        step(s, b).0 == init_state(),
        step(s, b).1 == Seq::<Seq<u8>>::empty(),
{
}

/// Outside scan data, a byte-stuffing escape or restart marker is a
/// grammar violation: the frame under assembly is abandoned, nothing is
/// emitted.
pub proof fn lemma_escape_outside_scan_abandons(s: State, b: u8)
    requires
        s.phase == Phase::MarkerByte,
        !s.inside_scan,
        b == 0x00 || (0xd0 <= b && b <= 0xd7),
    ensures
        step(s, b).0 == init_state(),
        step(s, b).1 == Seq::<Seq<u8>>::empty(),
        step(s, b).2,
{
}

/// Consuming exactly the outstanding payload bytes of a segment appends
/// them to the frame buffer and lands on the byte that must start the
/// next marker.
proof fn lemma_payload_run(buf: Seq<u8>, isc: bool, p: Seq<u8>)
    requires
        1 <= p.len() <= 0xfffd,
    ensures
        run(State { phase: Phase::Payload(p.len() as usize), buf: buf, inside_scan: isc }, p).0
            == (State { phase: Phase::Check, buf: buf + p, inside_scan: isc }),
        run(State { phase: Phase::Payload(p.len() as usize), buf: buf, inside_scan: isc }, p).1
            == Seq::<Seq<u8>>::empty(),
    decreases p.len(),
{
    let s = State { phase: Phase::Payload(p.len() as usize), buf: buf, inside_scan: isc };
    if p.len() == 1 {
        let s1 = step(s, p[0]).0;
        assert(s1 =~= State { phase: Phase::Check, buf: buf.push(p[0]), inside_scan: isc });
        assert(buf.push(p[0]) =~= buf + p);
        assert(p.skip(1) =~= Seq::<u8>::empty());
        assert(run(s1, p.skip(1)).0 == s1);
        assert(run(s1, p.skip(1)).1 =~= Seq::<Seq<u8>>::empty());
        assert(run(s, p).1 =~= Seq::<Seq<u8>>::empty());
    } else {
        let s1 = step(s, p[0]).0;
        assert(s1 =~= State {
            phase: Phase::Payload((p.len() - 1) as usize),
            buf: buf.push(p[0]),
            inside_scan: isc,
        });
        assert(p.skip(1).len() == p.len() - 1);
        lemma_payload_run(buf.push(p[0]), isc, p.skip(1));
        assert(buf.push(p[0]) + p.skip(1) =~= buf + p);
        assert(run(s, p).1 =~= Seq::<Seq<u8>>::empty());
    }
}

/// From the marker-type position with a well-formed rest-of-image `t`,
/// the parser consumes all of `t`, emits exactly the assembled frame
/// `buf + t`, and returns to the initial synchronization state.
proof fn lemma_tail_run(buf: Seq<u8>, isc: bool, t: Seq<u8>)
    requires
        tail_ok(t, isc),
    ensures
        run(State { phase: Phase::MarkerByte, buf: buf, inside_scan: isc }, t).0 == init_state(),
        run(State { phase: Phase::MarkerByte, buf: buf, inside_scan: isc }, t).1 == seq![buf + t],
    decreases t.len(), 1int,
{
    let s = State { phase: Phase::MarkerByte, buf: buf, inside_scan: isc };
    let b = t[0];
    if b == 0xd9 {
        assert(t.len() == 1);
        let s1 = step(s, b).0;
        assert(s1 == init_state());
        assert(step(s, b).1 =~= seq![buf.push(b)]);
        assert(t.skip(1) =~= Seq::<u8>::empty());
        assert(run(s1, t.skip(1)).0 == s1);
        assert(run(s1, t.skip(1)).1 =~= Seq::<Seq<u8>>::empty());
        assert(buf.push(b) =~= buf + t);
        assert(run(s, t).1 =~= seq![buf + t]);
    } else if b == 0x00 || (0xd0 <= b && b <= 0xd7) {
        let s1 = step(s, b).0;
        assert(s1 =~= State { phase: Phase::ScanSkip, buf: buf.push(b), inside_scan: isc });
        lemma_scan_run(buf.push(b), isc, t.skip(1));
        assert(buf.push(b) + t.skip(1) =~= buf + t);
        assert(run(s, t).1 =~= seq![buf + t]);
    } else {
        let isc2 = b == 0xda;
        let v = (t[1] as int) * 256 + (t[2] as int);
        let chk = t[v + 1];
        // Three steps: the marker byte and the two length bytes.
        let s1 = step(s, b).0;
        assert(s1 =~= State { phase: Phase::Len0, buf: buf.push(b), inside_scan: isc2 });
        assert(t.skip(1)[0] == t[1]);
        assert(run(s, t).0 == run(s1, t.skip(1)).0);
        assert(run(s, t).1 =~= run(s1, t.skip(1)).1);
        let s2 = step(s1, t[1]).0;
        assert(s2 =~= State {
            phase: Phase::Len1(t[1]),
            buf: buf.push(b).push(t[1]),
            inside_scan: isc2,
        });
        assert(t.skip(1).skip(1) =~= t.skip(2));
        assert(t.skip(2)[0] == t[2]);
        assert(run(s1, t.skip(1)).0 == run(s2, t.skip(2)).0);
        assert(run(s1, t.skip(1)).1 =~= run(s2, t.skip(2)).1);
        let s3 = step(s2, t[2]).0;
        assert(t.skip(2).skip(1) =~= t.skip(3));
        assert(run(s2, t.skip(2)).0 == run(s3, t.skip(3)).0);
        assert(run(s2, t.skip(2)).1 =~= run(s3, t.skip(3)).1);
        let buf3 = buf.push(b).push(t[1]).push(t[2]);
        // The parser now stands where the check byte is due, with the
        // whole segment appended.
        let buf4 = buf + t.subrange(0, v + 1);
        let s4 = State { phase: Phase::Check, buf: buf4, inside_scan: isc2 };
        if v == 2 {
            assert(s3 =~= State { phase: Phase::Check, buf: buf3, inside_scan: isc2 });
            assert(buf3 =~= buf4);
            assert(run(s, t).0 == run(s4, t.skip(3)).0);
            assert(run(s, t).1 =~= run(s4, t.skip(3)).1);
            lemma_check_run(buf4, isc2, t.skip(v + 1), t, v, buf);
            assert(run(s, t).1 =~= seq![buf + t]);
        } else {
            let p = t.subrange(3, v + 1);
            assert(s3 =~= State {
                phase: Phase::Payload(p.len() as usize),
                buf: buf3,
                inside_scan: isc2,
            });
            assert(t.skip(3) =~= p + t.skip(v + 1));
            lemma_run_concat(s3, p, t.skip(v + 1));
            lemma_payload_run(buf3, isc2, p);
            assert(buf3 + p =~= buf4);
            assert(run(s, t).0 == run(s4, t.skip(v + 1)).0);
            assert(run(s, t).1 =~= run(s4, t.skip(v + 1)).1);
            lemma_check_run(buf4, isc2, t.skip(v + 1), t, v, buf);
            assert(run(s, t).1 =~= seq![buf + t]);
        }
    }
}

/// From the check-byte position after a segment, with `r` the rest of
/// the input beginning at that byte: the grammar being well-formed from
/// here on, the parser consumes `r`, emits the whole image `orig + t`,
/// and returns to the initial state. `t`, `v` and `orig` tie the
/// position back to the enclosing segment of `lemma_tail_run`.
proof fn lemma_check_run(buf: Seq<u8>, isc: bool, r: Seq<u8>, t: Seq<u8>, v: int, orig: Seq<u8>)
    requires
        r == t.skip(v + 1),
        buf == orig + t.subrange(0, v + 1),
        2 <= v,
        t.len() >= v + 2,
        ({
            let chk = t[v + 1];
            if chk == 0xff {
                tail_ok(t.skip(v + 2), isc)
            } else {
                isc && scan_ok(t.skip(v + 2), isc)
            }
        }),
    ensures
        run(State { phase: Phase::Check, buf: buf, inside_scan: isc }, r).0 == init_state(),
        run(State { phase: Phase::Check, buf: buf, inside_scan: isc }, r).1 == seq![orig + t],
    decreases t.len() - v, 0int,
{
    let s = State { phase: Phase::Check, buf: buf, inside_scan: isc };
    let chk = t[v + 1];
    assert(r[0] == chk);
    assert(r.skip(1) =~= t.skip(v + 2));
    let buf5 = buf.push(chk);
    if chk == 0xff {
        let s5 = step(s, chk).0;
        assert(s5 =~= State { phase: Phase::MarkerByte, buf: buf5, inside_scan: isc });
        lemma_tail_run(buf5, isc, t.skip(v + 2));
        assert(buf5 + t.skip(v + 2) =~= orig + t);
        assert(run(s, r).1 =~= seq![orig + t]);
    } else {
        let s5 = step(s, chk).0;
        assert(s5 =~= State { phase: Phase::ScanSkip, buf: buf5, inside_scan: isc });
        lemma_scan_run(buf5, isc, t.skip(v + 2));
        assert(buf5 + t.skip(v + 2) =~= orig + t);
        assert(run(s, r).1 =~= seq![orig + t]);
    }
}

/// From inside entropy-coded filler with a well-formed rest `t`, the
/// parser consumes `t`, emits `buf + t`, and returns to the initial
/// state.
proof fn lemma_scan_run(buf: Seq<u8>, isc: bool, t: Seq<u8>)
    requires
        scan_ok(t, isc),
    ensures
        run(State { phase: Phase::ScanSkip, buf: buf, inside_scan: isc }, t).0 == init_state(),
        run(State { phase: Phase::ScanSkip, buf: buf, inside_scan: isc }, t).1 == seq![buf + t],
    decreases t.len(), 0int,
{
    let s = State { phase: Phase::ScanSkip, buf: buf, inside_scan: isc };
    let b = t[0];
    let s1 = step(s, b).0;
    if b == 0xff {
        assert(s1 =~= State { phase: Phase::MarkerByte, buf: buf.push(b), inside_scan: isc });
        lemma_tail_run(buf.push(b), isc, t.skip(1));
    } else {
        assert(s1 =~= State { phase: Phase::ScanSkip, buf: buf.push(b), inside_scan: isc });
        lemma_scan_run(buf.push(b), isc, t.skip(1));
    }
    assert(buf.push(b) + t.skip(1) =~= buf + t);
    assert(run(s, t).1 =~= seq![buf + t]);
}

/// A well-formed JPEG image fed to a synchronizing parser is emitted
/// exactly once, byte for byte, and the parser returns to its initial
/// state, ready for the next image. Because the parser consumes one
/// byte at a time and `lemma_run_concat` splits any run at any point,
/// this holds however the input is chunked across reads.
pub proof fn lemma_valid_jpeg_parsed(s: State, b: Seq<u8>)
    requires
        s.phase == Phase::Sync0,
        valid_jpeg(b),
    ensures
        run(s, b).0 == init_state(),
        run(s, b).1 == seq![b],
{
    let s1 = step(s, b[0]).0;
    assert(s1 == (State { phase: Phase::Sync1, ..s }));
    assert(b.skip(1)[0] == b[1]);
    assert(run(s, b).0 == run(s1, b.skip(1)).0);
    assert(run(s, b).1 =~= run(s1, b.skip(1)).1);
    let s2 = step(s1, b[1]).0;
    assert(s2 == (State { phase: Phase::Sync2, ..s }));
    assert(b.skip(1).skip(1) =~= b.skip(2));
    assert(b.skip(2)[0] == b[2]);
    assert(run(s1, b.skip(1)).0 == run(s2, b.skip(2)).0);
    assert(run(s1, b.skip(1)).1 =~= run(s2, b.skip(2)).1);
    let s3 = step(s2, b[2]).0;
    assert(s3 =~= State {
        phase: Phase::MarkerByte,
        buf: seq![0xffu8, 0xd8u8, 0xffu8],
        inside_scan: false,
    });
    assert(b.skip(2).skip(1) =~= b.skip(3));
    assert(run(s2, b.skip(2)).0 == run(s3, b.skip(3)).0);
    assert(run(s2, b.skip(2)).1 =~= run(s3, b.skip(3)).1);
    lemma_tail_run(seq![0xffu8, 0xd8u8, 0xffu8], false, b.skip(3));
    assert(seq![0xffu8, 0xd8u8, 0xffu8] + b.skip(3) =~= b);
    assert(run(s, b).1 =~= seq![b]);
}

/// An input stream that concatenates well-formed images, each preceded
/// by arbitrary marker-free noise, parses to exactly those images, in
/// order, and leaves the parser back in its initial state.
pub open spec fn interleaved(noise: Seq<Seq<u8>>, frames: Seq<Seq<u8>>) -> Seq<u8>
    decreases frames.len(),
{
    if frames.len() == 0 {
        Seq::empty()
    } else {
        noise[0] + frames[0] + interleaved(noise.skip(1), frames.skip(1))
    }
}

/// Parsing a stream of `n` well-formed images separated by marker-free
/// noise emits exactly the `n` images, byte for byte, in their original
/// order.
pub proof fn lemma_stream_of_frames(noise: Seq<Seq<u8>>, frames: Seq<Seq<u8>>)
    requires
        noise.len() == frames.len(),
        forall|i: int| 0 <= i < frames.len() ==> valid_jpeg(#[trigger] frames[i]),
        forall|i: int| 0 <= i < noise.len() ==> marker_free(#[trigger] noise[i]),
    ensures
        run(init_state(), interleaved(noise, frames)).0 == init_state(),
        run(init_state(), interleaved(noise, frames)).1 == frames,
    decreases frames.len(),
{
    let s0 = init_state();
    if frames.len() == 0 {
        assert(run(s0, interleaved(noise, frames)).1 =~= frames);
    } else {
        let rest = interleaved(noise.skip(1), frames.skip(1));
        assert(interleaved(noise, frames) == noise[0] + frames[0] + rest);
        assert(noise[0] + frames[0] + rest =~= noise[0] + (frames[0] + rest));
        lemma_run_concat(s0, noise[0], frames[0] + rest);
        lemma_noise_ignored(s0, noise[0]);
        lemma_run_concat(s0, frames[0], rest);
        lemma_valid_jpeg_parsed(s0, frames[0]);
        assert(forall|i: int|
            0 <= i < frames.skip(1).len() ==> valid_jpeg(#[trigger] frames.skip(1)[i]));
        assert(forall|i: int|
            0 <= i < noise.skip(1).len() ==> marker_free(#[trigger] noise.skip(1)[i]));
        lemma_stream_of_frames(noise.skip(1), frames.skip(1));
        assert(run(s0, interleaved(noise, frames)).1 =~= Seq::<Seq<u8>>::empty() + (seq![frames[0]]
            + frames.skip(1)));
        assert(Seq::<Seq<u8>>::empty() + (seq![frames[0]] + frames.skip(1)) =~= frames);
    }
}

/// After a corrupted region that emitted nothing and left the parser
/// synchronizing from scratch, the parser recovers: marker-free noise
/// and then a well-formed image yield exactly that image. Together with
/// `lemma_violation_resets` this is the recovery story: a grammar
/// violation emits nothing and resets the parser, and from there the
/// next well-formed image is parsed as if the corruption had never
/// happened.
pub proof fn lemma_resync_after_corruption(c: Seq<u8>, n: Seq<u8>, b: Seq<u8>)
    requires
        run(init_state(), c).1 == Seq::<Seq<u8>>::empty(),
        run(init_state(), c).0.phase == Phase::Sync0,
        marker_free(n),
        valid_jpeg(b),
    ensures
        run(init_state(), c + n + b).0 == init_state(),
        run(init_state(), c + n + b).1 == seq![b],
{
    let s0 = init_state();
    let sc = run(s0, c).0;
    assert(c + n + b =~= c + (n + b));
    lemma_run_concat(s0, c, n + b);
    lemma_run_concat(sc, n, b);
    lemma_noise_ignored(sc, n);
    lemma_valid_jpeg_parsed(sc, b);
    assert(run(s0, c + n + b).1 =~= seq![b]);
}

/// The continuations that drive the parser from mid-frame phase `ph`
/// (with `isc` saying whether scan data surrounds it) cleanly to an
/// emitted frame: exactly the byte sequences the marker grammar admits
/// from that position. For the synchronization phases no continuation
/// is considered.
pub open spec fn cont_ok(ph: Phase, isc: bool, c: Seq<u8>) -> bool {
    match ph {
        Phase::Sync0 | Phase::Sync1 | Phase::Sync2 => false,
        Phase::MarkerByte => tail_ok(c, isc),
        Phase::ScanSkip => scan_ok(c, isc),
        Phase::Len0 => c.len() >= 2 && {
            let v = (c[0] as int) * 256 + (c[1] as int);
            v >= 2 && c.len() >= v + 1 && {
                if c[v] == 0xff {
                    tail_ok(c.skip(v + 1), isc)
                } else {
                    isc && scan_ok(c.skip(v + 1), isc)
                }
            }
        },
        Phase::Len1(l1) => c.len() >= 1 && {
            let v = (l1 as int) * 256 + (c[0] as int);
            v >= 2 && c.len() >= v && {
                if c[v - 1] == 0xff {
                    tail_ok(c.skip(v), isc)
                } else {
                    isc && scan_ok(c.skip(v), isc)
                }
            }
        },
        Phase::Payload(rem) => c.len() >= rem + 1 && {
            if c[rem as int] == 0xff {
                tail_ok(c.skip(rem + 1), isc)
            } else {
                isc && scan_ok(c.skip(rem + 1), isc)
            }
        },
        Phase::Check => c.len() >= 1 && {
            if c[0] == 0xff {
                tail_ok(c.skip(1), isc)
            } else {
                isc && scan_ok(c.skip(1), isc)
            }
        },
    }
}

/// The consumed rest-of-image `u` closes to a well-formed image body
/// under every grammar-admitted continuation of phase `ph`.
pub open spec fn closes_to(ph: Phase, isc: bool, u: Seq<u8>) -> bool {
    forall|c: Seq<u8>| #[trigger] cont_ok(ph, isc, c) ==> tail_ok(u + c, false)
}

/// A state the parser can actually be in: either it is synchronizing,
/// or its buffer starts with the start-of-image sequence and everything
/// consumed after it closes to a well-formed image body. This is the
/// invariant behind the parser's soundness: a frame is emitted only
/// when the end-of-image marker arrives at a marker position, and then
/// the invariant makes the whole buffer a well-formed image.
pub open spec fn closable(s: State) -> bool {
    match s.phase {
        Phase::Sync0 | Phase::Sync1 | Phase::Sync2 => true,
        _ => {
            &&& s.buf.len() >= 3
            &&& s.buf[0] == 0xff
            &&& s.buf[1] == 0xd8
            &&& s.buf[2] == 0xff
            &&& (match s.phase {
                Phase::Payload(rem) => rem >= 1,
                _ => true,
            })
            &&& closes_to(s.phase, s.inside_scan, s.buf.skip(3))
        },
    }
}

/// Every step preserves the reachability invariant, and any frame it
/// emits is a well-formed image.
pub proof fn lemma_step_preserves_closable(s: State, b: u8)
    requires
        closable(s),
    ensures
        closable(step(s, b).0),
        forall|i: int| 0 <= i < step(s, b).1.len() ==> valid_jpeg(#[trigger] step(s, b).1[i]),
{
    let u = s.buf.skip(3);
    let isc = s.inside_scan;
    let r = step(s, b);
    match s.phase {
        Phase::Sync0 | Phase::Sync1 => {},
        Phase::Sync2 => {
            if b == 0xff {
                assert forall|c: Seq<u8>| #[trigger] cont_ok(Phase::MarkerByte, false, c)
                    implies tail_ok(seq![0xffu8, 0xd8u8, 0xffu8].skip(3) + c, false) by {
                    assert(seq![0xffu8, 0xd8u8, 0xffu8].skip(3) + c =~= c);
                }
            }
        },
        Phase::MarkerByte => {
            let u2 = s.buf.push(b).skip(3);
            assert(u2 =~= u.push(b));
            if b == 0xd9 {
                assert(cont_ok(Phase::MarkerByte, isc, seq![0xd9u8]));
                assert(u + seq![0xd9u8] =~= u2);
                assert(s.buf.push(b).skip(3) =~= u2);
                assert(valid_jpeg(s.buf.push(b)));
            } else if b == 0x00 || (0xd0 <= b && b <= 0xd7) {
                if isc {
                    assert forall|c: Seq<u8>| #[trigger] cont_ok(Phase::ScanSkip, isc, c)
                        implies tail_ok(u2 + c, false) by {
                        let t = seq![b] + c;
                        assert(t[0] == b);
                        assert(t.skip(1) =~= c);
                        assert(cont_ok(Phase::MarkerByte, isc, t));
                        assert(u + t =~= u2 + c);
                    }
                }
            } else if 0xc0 <= b && b <= 0xfe {
                let isc2 = b == 0xda;
                assert forall|c: Seq<u8>| #[trigger] cont_ok(Phase::Len0, isc2, c)
                    implies tail_ok(u2 + c, false) by {
                    let t = seq![b] + c;
                    let v = (c[0] as int) * 256 + (c[1] as int);
                    assert(t[0] == b && t[1] == c[0] && t[2] == c[1]);
                    assert(t[v + 1] == c[v]);
                    assert(t.skip(v + 2) =~= c.skip(v + 1));
                    assert(cont_ok(Phase::MarkerByte, isc, t));
                    assert(u + t =~= u2 + c);
                }
            }
        },
        Phase::Len0 => {
            let u2 = s.buf.push(b).skip(3);
            assert(u2 =~= u.push(b));
            assert forall|c: Seq<u8>| #[trigger] cont_ok(Phase::Len1(b), isc, c)
                implies tail_ok(u2 + c, false) by {
                let t = seq![b] + c;
                let v = (b as int) * 256 + (c[0] as int);
                assert(t[0] == b && t[1] == c[0]);
                assert(t[v] == c[v - 1]);
                assert(t.skip(v + 1) =~= c.skip(v));
                assert(cont_ok(Phase::Len0, isc, t));
                assert(u + t =~= u2 + c);
            }
        },
        Phase::Len1(l1) => {
            let u2 = s.buf.push(b).skip(3);
            assert(u2 =~= u.push(b));
            let v = (l1 as int) * 256 + (b as int);
            if v >= 2 {
                let ph2 = if v == 2 {
                    Phase::Check
                } else {
                    Phase::Payload((v - 2) as usize)
                };
                assert forall|c: Seq<u8>| #[trigger] cont_ok(ph2, isc, c)
                    implies tail_ok(u2 + c, false) by {
                    let t = seq![b] + c;
                    assert(t[0] == b);
                    assert(t[v - 1] == c[v - 2]);
                    assert(t.skip(v) =~= c.skip(v - 1));
                    assert(cont_ok(Phase::Len1(l1), isc, t));
                    assert(u + t =~= u2 + c);
                }
            }
        },
        Phase::Payload(rem) => {
            let u2 = s.buf.push(b).skip(3);
            assert(u2 =~= u.push(b));
            let ph2 = if rem <= 1 {
                Phase::Check
            } else {
                Phase::Payload((rem - 1) as usize)
            };
            assert forall|c: Seq<u8>| #[trigger] cont_ok(ph2, isc, c) implies tail_ok(
                u2 + c,
                false,
            ) by {
                let t = seq![b] + c;
                if rem <= 1 {
                    assert(t[1] == c[0]);
                    assert(t.skip(2) =~= c.skip(1));
                } else {
                    assert(t[rem as int] == c[rem - 1]);
                    assert(t.skip(rem + 1) =~= c.skip(rem as int));
                }
                assert(cont_ok(Phase::Payload(rem), isc, t));
                assert(u + t =~= u2 + c);
            }
        },
        Phase::Check => {
            let u2 = s.buf.push(b).skip(3);
            assert(u2 =~= u.push(b));
            if b == 0xff {
                assert forall|c: Seq<u8>| #[trigger] cont_ok(Phase::MarkerByte, isc, c)
                    implies tail_ok(u2 + c, false) by {
                    let t = seq![b] + c;
                    assert(t[0] == b);
                    assert(t.skip(1) =~= c);
                    assert(cont_ok(Phase::Check, isc, t));
                    assert(u + t =~= u2 + c);
                }
            } else if isc {
                assert forall|c: Seq<u8>| #[trigger] cont_ok(Phase::ScanSkip, isc, c)
                    implies tail_ok(u2 + c, false) by {
                    let t = seq![b] + c;
                    assert(t[0] == b);
                    assert(t.skip(1) =~= c);
                    assert(cont_ok(Phase::Check, isc, t));
                    assert(u + t =~= u2 + c);
                }
            }
        },
        Phase::ScanSkip => {
            let u2 = s.buf.push(b).skip(3);
            assert(u2 =~= u.push(b));
            let ph2 = if b == 0xff {
                Phase::MarkerByte
            } else {
                Phase::ScanSkip
            };
            assert forall|c: Seq<u8>| #[trigger] cont_ok(ph2, isc, c) implies tail_ok(
                u2 + c,
                false,
            ) by {
                let t = seq![b] + c;
                assert(t[0] == b);
                assert(t.skip(1) =~= c);
                assert(cont_ok(Phase::ScanSkip, isc, t));
                assert(u + t =~= u2 + c);
            }
        },
    }
}

/// From any reachable state, every frame a run of the parser emits is a
/// well-formed JPEG image: the parser never emits a malformed frame,
/// whatever bytes arrive.
pub proof fn lemma_run_emits_valid(s: State, input: Seq<u8>)
    requires
        closable(s),
    ensures
        closable(run(s, input).0),
        forall|i: int|
            0 <= i < run(s, input).1.len() ==> valid_jpeg(#[trigger] run(s, input).1[i]),
    decreases input.len(),
{
    if input.len() > 0 {
        let r = step(s, input[0]);
        lemma_step_preserves_closable(s, input[0]);
        lemma_run_emits_valid(r.0, input.skip(1));
        assert forall|i: int| 0 <= i < run(s, input).1.len() implies valid_jpeg(
            #[trigger] run(s, input).1[i],
        ) by {
            if i < r.1.len() {
                assert(run(s, input).1[i] == r.1[i]);
            } else {
                assert(run(s, input).1[i] == run(r.0, input.skip(1)).1[i - r.1.len()]);
            }
        }
    }
}

/// The soundness theorem at the stream's start: whatever the input
/// bytes, every frame the parser emits from its initial state is a
/// well-formed JPEG image.
pub proof fn lemma_no_malformed_frame_emitted(input: Seq<u8>)
    ensures
        forall|i: int|
            0 <= i < run(init_state(), input).1.len() ==> valid_jpeg(
                #[trigger] run(init_state(), input).1[i],
            ),
{
    lemma_run_emits_valid(init_state(), input);
}

/// While synchronizing, marker-free bytes are discarded without any
/// effect: no state change, no emission.
pub proof fn lemma_noise_ignored(s: State, n: Seq<u8>)
    requires
        s.phase == Phase::Sync0,
        marker_free(n),
    ensures
        run(s, n).0 == s,
        run(s, n).1 == Seq::<Seq<u8>>::empty(),
    decreases n.len(),
{
    if n.len() > 0 {
        assert(n[0] != 0xff);
        assert(step(s, n[0]).0 == s);
        assert(marker_free(n.skip(1)));
        lemma_noise_ignored(s, n.skip(1));
        assert(run(s, n).1 =~= Seq::<Seq<u8>>::empty());
    }
}

} // verus!
