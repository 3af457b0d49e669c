//! Encoding: the bit-exact wire form of every frame, and the encoder
//! that produces it. Encoding is total; determinism comes from the
//! key-sorted map entries and the explicit integer sign.
use vstd::prelude::*;
use crate::frame::{
    FrameView, RespFrame, SimpleString, SimpleError, BulkString, RespArray, RespNull, RespMap,
    RespSet, frames_view, pairs_view, lemma_frames_view_len, lemma_pairs_view_len,
};
use crate::text::{dec_rep, format_u64};
use crate::wire::{CR, LF};

verus! {

pub open spec fn crlf() -> Seq<u8> {
    seq![CR, LF]
}

/// `+<text>\r\n`
pub open spec fn enc_simple(s: Seq<u8>) -> Seq<u8> {
    seq![43u8] + s + crlf()
}

/// `-<text>\r\n`
pub open spec fn enc_error(s: Seq<u8>) -> Seq<u8> {
    seq![45u8] + s + crlf()
}

/// `:<sign><digits>\r\n`, the sign always written.
pub open spec fn enc_integer(i: int) -> Seq<u8> {
    if i < 0 {
        seq![58u8, 45u8] + dec_rep((-i) as nat) + crlf()
    } else {
        seq![58u8, 43u8] + dec_rep(i as nat) + crlf()
    }
}

/// `$<len>\r\n<bytes>\r\n`; the null bulk string is `$-1\r\n`.
pub open spec fn enc_bulk(p: Option<Seq<u8>>) -> Seq<u8> {
    match p {
        Some(b) => seq![36u8] + dec_rep(b.len()) + crlf() + b + crlf(),
        None => seq![36u8, 45u8, 49u8] + crlf(),
    }
}

/// `_\r\n`
pub open spec fn enc_null() -> Seq<u8> {
    seq![95u8] + crlf()
}

/// `#t\r\n` or `#f\r\n`
pub open spec fn enc_bool(b: bool) -> Seq<u8> {
    if b {
        seq![35u8, 116u8] + crlf()
    } else {
        seq![35u8, 102u8] + crlf()
    }
}

/// `,<written form>\r\n`
pub open spec fn enc_double(d: Seq<u8>) -> Seq<u8> {
    seq![44u8] + d + crlf()
}

/// The wire form of a frame.
pub open spec fn enc_frame(v: FrameView) -> Seq<u8>
    decreases v,
{
    match v {
        FrameView::SimpleString(s) => enc_simple(s),
        FrameView::Error(s) => enc_error(s),
        FrameView::Integer(i) => enc_integer(i),
        FrameView::BulkString(p) => enc_bulk(p),
        FrameView::Array(es) => match es {
            Some(es) => seq![42u8] + dec_rep(es.len()) + crlf() + enc_seq(es),
            None => seq![42u8, 45u8, 49u8] + crlf(),
        },
        FrameView::Null => enc_null(),
        FrameView::Boolean(b) => enc_bool(b),
        FrameView::Double(d) => enc_double(d),
        FrameView::MapData(ps) => seq![37u8] + dec_rep(ps.len()) + crlf() + enc_pairs(ps),
        FrameView::SetData(es) => seq![126u8] + dec_rep(es.len()) + crlf() + enc_seq(es),
    }
}

/// The wire forms of the frames of `es`, one after the other.
pub open spec fn enc_seq(es: Seq<FrameView>) -> Seq<u8>
    decreases es,
{
    if es.len() == 0 {
        Seq::empty()
    } else {
        enc_frame(es[0]) + enc_seq(es.skip(1))
    }
}

/// The wire forms of the entries of `ps`: each key as a simple string,
/// then its value.
pub open spec fn enc_pairs(ps: Seq<(Seq<u8>, FrameView)>) -> Seq<u8>
    decreases ps,
{
    if ps.len() == 0 {
        Seq::empty()
    } else {
        enc_simple(ps[0].0) + enc_frame(ps[0].1) + enc_pairs(ps.skip(1))
    }
}

pub proof fn lemma_enc_seq_snoc(es: Seq<FrameView>, x: FrameView)
    ensures
        enc_seq(es.push(x)) == enc_seq(es) + enc_frame(x),
    decreases es,
{
    if es.len() == 0 {
        assert(es.push(x)[0] == x);
        assert(es.push(x).skip(1) =~= Seq::<FrameView>::empty());
        assert(enc_seq(Seq::<FrameView>::empty()) == Seq::<u8>::empty());
        assert(enc_seq(es) == Seq::<u8>::empty());
        assert(enc_seq(es.push(x)) =~= enc_seq(es) + enc_frame(x));
    } else {
        assert(es.push(x)[0] == es[0]);
        assert(es.push(x).skip(1) =~= es.skip(1).push(x));
        lemma_enc_seq_snoc(es.skip(1), x);
        assert(enc_frame(es[0]) + (enc_seq(es.skip(1)) + enc_frame(x)) =~= (enc_frame(es[0])
            + enc_seq(es.skip(1))) + enc_frame(x));
    }
}

pub proof fn lemma_enc_pairs_snoc(ps: Seq<(Seq<u8>, FrameView)>, p: (Seq<u8>, FrameView))
    ensures
        enc_pairs(ps.push(p)) == enc_pairs(ps) + enc_simple(p.0) + enc_frame(p.1),
    decreases ps,
{
    if ps.len() == 0 {
        assert(ps.push(p)[0] == p);
        assert(ps.push(p).skip(1) =~= Seq::<(Seq<u8>, FrameView)>::empty());
        assert(enc_pairs(Seq::<(Seq<u8>, FrameView)>::empty()) == Seq::<u8>::empty());
        assert(enc_pairs(ps) == Seq::<u8>::empty());
        assert(enc_pairs(ps.push(p)) =~= enc_pairs(ps) + enc_simple(p.0) + enc_frame(p.1));
    } else {
        assert(ps.push(p)[0] == ps[0]);
        assert(ps.push(p).skip(1) =~= ps.skip(1).push(p));
        lemma_enc_pairs_snoc(ps.skip(1), p);
        assert(enc_simple(ps[0].0) + enc_frame(ps[0].1) + (enc_pairs(ps.skip(1)) + enc_simple(p.0)
            + enc_frame(p.1)) =~= ((enc_simple(ps[0].0) + enc_frame(ps[0].1) + enc_pairs(
            ps.skip(1),
        )) + enc_simple(p.0)) + enc_frame(p.1));
    }
}

/// Append `add` to `out`.
fn append_bytes(out: &mut Vec<u8>, add: &[u8])
    ensures
        final (out)@ == old(out)@ + add@,
{
    let n = add.len();
    let mut i: usize = 0;
    while i < n
        invariant
            i <= n,
            n == add@.len(),
            out@ =~= old(out)@ + add@.take(i as int),
        decreases n - i,
    {
        out.push(add[i]);
        proof {
            assert(old(out)@ + add@.take(i as int) + seq![add@[i as int]] =~= old(out)@
                + add@.take(i + 1));
        }
        i = i + 1;
    }
    proof {
        assert(add@.take(n as int) =~= add@);
    }
}

/// Write the sign and digits of `i` onto `out`.
fn append_integer(out: &mut Vec<u8>, i: i64)
    ensures
        final (out)@ == old(out)@ + (if i < 0 {
            seq![45u8] + dec_rep((-(i as int)) as nat)
        } else {
            seq![43u8] + dec_rep(i as nat)
        }),
{
    if i < 0 {
        out.push(45);
        let mag: u64 = ((-(i + 1)) as u64) + 1;
        let digits = format_u64(mag);
        append_bytes(out, digits.as_slice());
        proof {
            assert(mag == -(i as int));
            assert(old(out)@.push(45u8) + dec_rep(mag as nat) =~= old(out)@ + (seq![45u8]
                + dec_rep((-(i as int)) as nat)));
        }
    } else {
        out.push(43);
        let digits = format_u64(i as u64);
        append_bytes(out, digits.as_slice());
        proof {
            assert(old(out)@.push(43u8) + dec_rep(i as nat) =~= old(out)@ + (seq![43u8] + dec_rep(
                i as nat,
            )));
        }
    }
}

/// The wire form of `f`, appended to `out`.
fn append_frame(out: &mut Vec<u8>, f: &RespFrame)
    ensures
        final (out)@ == old(out)@ + enc_frame(f@),
    decreases *f,
{
    match f {
        RespFrame::SimpleString(s) => {
            out.push(43);
            append_bytes(out, s.0.as_slice());
            out.push(CR);
            out.push(LF);
            proof {
                assert(old(out)@.push(43u8) + s.0@ + seq![CR, LF] =~= old(out)@ + enc_simple(
                    s.0@,
                ));
                assert(out@ =~= old(out)@.push(43u8) + s.0@ + seq![CR, LF]);
            }
        },
        RespFrame::Error(e) => {
            out.push(45);
            append_bytes(out, e.0.as_slice());
            out.push(CR);
            out.push(LF);
            proof {
                assert(out@ =~= old(out)@ + enc_error(e.0@));
            }
        },
        RespFrame::Integer(i) => {
            out.push(58);
            append_integer(out, *i);
            out.push(CR);
            out.push(LF);
            proof {
                assert(out@ =~= old(out)@ + enc_integer(*i as int));
            }
        },
        RespFrame::BulkString(b) => match &b.0 {
            Some(p) => {
                out.push(36);
                let digits = format_u64(p.len() as u64);
                append_bytes(out, digits.as_slice());
                out.push(CR);
                out.push(LF);
                append_bytes(out, p.as_slice());
                out.push(CR);
                out.push(LF);
                proof {
                    assert(out@ =~= old(out)@ + enc_bulk(Some(p@)));
                }
            },
            None => {
                out.push(36);
                out.push(45);
                out.push(49);
                out.push(CR);
                out.push(LF);
                proof {
                    assert(out@ =~= old(out)@ + enc_bulk(None));
                }
            },
        },
        RespFrame::Array(a) => match &a.0 {
            Some(v) => {
                out.push(42);
                let digits = format_u64(v.len() as u64);
                append_bytes(out, digits.as_slice());
                out.push(CR);
                out.push(LF);
                let ghost header = old(out)@ + seq![42u8] + dec_rep(v@.len()) + crlf();
                proof {
                    assert(out@ =~= header);
                }
                append_frames(out, v);
                proof {
                    lemma_frames_view_len(v@);
                    assert(out@ =~= old(out)@ + enc_frame(f@));
                }
            },
            None => {
                out.push(42);
                out.push(45);
                out.push(49);
                out.push(CR);
                out.push(LF);
                proof {
                    assert(out@ =~= old(out)@ + enc_frame(f@));
                }
            },
        },
        RespFrame::Null(_) => {
            out.push(95);
            out.push(CR);
            out.push(LF);
            proof {
                assert(out@ =~= old(out)@ + enc_null());
            }
        },
        RespFrame::Boolean(b) => {
            out.push(35);
            if *b {
                out.push(116);
            } else {
                out.push(102);
            }
            out.push(CR);
            out.push(LF);
            proof {
                assert(out@ =~= old(out)@ + enc_bool(*b));
            }
        },
        RespFrame::Double(d) => {
            out.push(44);
            append_bytes(out, d.as_slice());
            out.push(CR);
            out.push(LF);
            proof {
                assert(out@ =~= old(out)@ + enc_double(d@));
            }
        },
        RespFrame::MapData(m) => {
            out.push(37);
            let digits = format_u64(m.0.len() as u64);
            append_bytes(out, digits.as_slice());
            out.push(CR);
            out.push(LF);
            let ghost header = old(out)@ + seq![37u8] + dec_rep(m.0@.len()) + crlf();
            proof {
                assert(out@ =~= header);
                lemma_pairs_view_len(m.0@);
            }
            let ghost ps = pairs_view(m.0@);
            let n = m.0.len();
            let mut i: usize = 0;
            proof {
                assert(enc_pairs(ps.take(0)) == Seq::<u8>::empty()) by {
                    assert(ps.take(0) =~= Seq::<(Seq<u8>, FrameView)>::empty());
                }
                assert(out@ =~= header + enc_pairs(ps.take(0)));
            }
            while i < n
                invariant
                    i <= n,
                    n == m.0@.len(),
                    ps == pairs_view(m.0@),
                    ps.len() == n,
                    forall|j: int| 0 <= j < n ==> #[trigger] ps[j] == (
                    m.0@[j].0@,
                    frame_view_of(m.0@[j].1),
                    ),
                    out@ == header + enc_pairs(ps.take(i as int)),
                    forall|j: int| 0 <= j < n ==> decreases_to!(*f => m.0@[j].1),
                decreases n - i,
            {
                let ghost mid = out@;
                out.push(43);
                append_bytes(out, m.0[i].0.as_slice());
                out.push(CR);
                out.push(LF);
                proof {
                    assert(out@ =~= mid + enc_simple(m.0@[i as int].0@));
                }
                let ghost mid2 = out@;
                append_frame(out, &m.0[i].1);
                proof {
                    assert(ps.take(i + 1) =~= ps.take(i as int).push(ps[i as int]));
                    lemma_enc_pairs_snoc(ps.take(i as int), ps[i as int]);
                    assert(out@ =~= header + enc_pairs(ps.take(i + 1)));
                }
                i = i + 1;
            }
            proof {
                assert(ps.take(n as int) =~= ps);
                assert(out@ =~= old(out)@ + enc_frame(f@));
            }
        },
        RespFrame::SetData(s) => {
            out.push(126);
            let digits = format_u64(s.0.len() as u64);
            append_bytes(out, digits.as_slice());
            out.push(CR);
            out.push(LF);
            let ghost header = old(out)@ + seq![126u8] + dec_rep(s.0@.len()) + crlf();
            proof {
                assert(out@ =~= header);
            }
            append_frames(out, &s.0);
            proof {
                lemma_frames_view_len(s.0@);
                assert(out@ =~= old(out)@ + enc_frame(f@));
            }
        },
    }
}

/// A spec-mode alias, so invariants can name a frame's view tersely.
pub open spec fn frame_view_of(f: RespFrame) -> FrameView {
    crate::frame::frame_view(f)
}

/// The wire forms of the frames of `v`, appended to `out` in order.
fn append_frames(out: &mut Vec<u8>, v: &Vec<RespFrame>)
    ensures
        final (out)@ == old(out)@ + enc_seq(frames_view(v@)),
    decreases v@,
{
    let ghost es = frames_view(v@);
    proof {
        lemma_frames_view_len(v@);
        assert(enc_seq(es.take(0)) == Seq::<u8>::empty()) by {
            assert(es.take(0) =~= Seq::<FrameView>::empty());
        }
    }
    let n = v.len();
    let mut i: usize = 0;
    while i < n
        invariant
            i <= n,
            n == v@.len(),
            es == frames_view(v@),
            es.len() == n,
            forall|j: int| 0 <= j < n ==> #[trigger] es[j] == frame_view_of(v@[j]),
            out@ == old(out)@ + enc_seq(es.take(i as int)),
            forall|j: int| 0 <= j < n ==> decreases_to!(v@ => v@[j]),
        decreases n - i,
    {
        append_frame(out, &v[i]);
        proof {
            assert(es.take(i + 1) =~= es.take(i as int).push(es[i as int]));
            lemma_enc_seq_snoc(es.take(i as int), es[i as int]);
            assert(old(out)@ + enc_seq(es.take(i as int)) + enc_frame(es[i as int]) =~= old(out)@
                + enc_seq(es.take(i + 1)));
        }
        i = i + 1;
    }
    proof {
        assert(es.take(n as int) =~= es);
    }
}

/// What a value writes on the wire.
pub trait RespEncode {
    /// The bytes this value encodes to.
    spec fn enc(&self) -> Seq<u8>;

    /// Write this value in its wire form.
    fn encode(&self) -> (r: Vec<u8>)
        ensures
            r@ == self.enc(),
    ;
}

impl RespEncode for RespFrame {
    open spec fn enc(&self) -> Seq<u8> {
        enc_frame(self@)
    }

    fn encode(&self) -> (r: Vec<u8>) {
        let mut out: Vec<u8> = Vec::new();
        append_frame(&mut out, self);
        out
    }
}

impl RespEncode for SimpleString {
    open spec fn enc(&self) -> Seq<u8> {
        enc_simple(self@)
    }

    fn encode(&self) -> (r: Vec<u8>) {
        let mut out: Vec<u8> = Vec::new();
        out.push(43);
        append_bytes(&mut out, self.0.as_slice());
        out.push(CR);
        out.push(LF);
        proof {
            assert(out@ =~= enc_simple(self@));
        }
        out
    }
}

impl RespEncode for SimpleError {
    open spec fn enc(&self) -> Seq<u8> {
        enc_error(self@)
    }

    fn encode(&self) -> (r: Vec<u8>) {
        let mut out: Vec<u8> = Vec::new();
        out.push(45);
        append_bytes(&mut out, self.0.as_slice());
        out.push(CR);
        out.push(LF);
        proof {
            assert(out@ =~= enc_error(self@));
        }
        out
    }
}

impl RespEncode for i64 {
    open spec fn enc(&self) -> Seq<u8> {
        enc_integer(*self as int)
    }

    fn encode(&self) -> (r: Vec<u8>) {
        let mut out: Vec<u8> = Vec::new();
        out.push(58);
        append_integer(&mut out, *self);
        out.push(CR);
        out.push(LF);
        proof {
            assert(out@ =~= enc_integer(*self as int));
        }
        out
    }
}

impl RespEncode for bool {
    open spec fn enc(&self) -> Seq<u8> {
        enc_bool(*self)
    }

    fn encode(&self) -> (r: Vec<u8>) {
        let mut out: Vec<u8> = Vec::new();
        out.push(35);
        if *self {
            out.push(116);
        } else {
            out.push(102);
        }
        out.push(CR);
        out.push(LF);
        proof {
            assert(out@ =~= enc_bool(*self));
        }
        out
    }
}

impl RespEncode for BulkString {
    open spec fn enc(&self) -> Seq<u8> {
        enc_bulk(self@)
    }

    fn encode(&self) -> (r: Vec<u8>) {
        let f = RespFrame::BulkString(BulkString(
            match &self.0 {
                Some(p) => Some(crate::frame::copy_bytes(p)),
                None => None,
            },
        ));
        let mut out: Vec<u8> = Vec::new();
        append_frame(&mut out, &f);
        out
    }
}

impl RespEncode for RespNull {
    open spec fn enc(&self) -> Seq<u8> {
        enc_null()
    }

    fn encode(&self) -> (r: Vec<u8>) {
        let mut out: Vec<u8> = Vec::new();
        out.push(95);
        out.push(CR);
        out.push(LF);
        proof {
            assert(out@ =~= enc_null());
        }
        out
    }
}

impl RespEncode for RespArray {
    open spec fn enc(&self) -> Seq<u8> {
        enc_frame(FrameView::Array(self@))
    }

    fn encode(&self) -> (r: Vec<u8>) {
        match &self.0 {
            Some(v) => {
                let mut out: Vec<u8> = Vec::new();
                out.push(42);
                let digits = format_u64(v.len() as u64);
                append_bytes(&mut out, digits.as_slice());
                out.push(CR);
                out.push(LF);
                proof {
                    lemma_frames_view_len(v@);
                    assert(out@ =~= seq![42u8] + dec_rep(v@.len()) + crlf());
                }
                append_frames(&mut out, v);
                out
            },
            None => {
                let mut out: Vec<u8> = Vec::new();
                out.push(42);
                out.push(45);
                out.push(49);
                out.push(CR);
                out.push(LF);
                proof {
                    assert(out@ =~= seq![42u8, 45u8, 49u8] + crlf());
                }
                out
            },
        }
    }
}

impl RespEncode for RespMap {
    open spec fn enc(&self) -> Seq<u8> {
        enc_frame(FrameView::MapData(self@))
    }

    fn encode(&self) -> (r: Vec<u8>) {
        let f = RespFrame::MapData(RespMap(Vec::new()));
        let mut out: Vec<u8> = Vec::new();
        out.push(37);
        let digits = format_u64(self.0.len() as u64);
        append_bytes(&mut out, digits.as_slice());
        out.push(CR);
        out.push(LF);
        let ghost header = seq![37u8] + dec_rep(self.0@.len()) + crlf();
        proof {
            lemma_pairs_view_len(self.0@);
            assert(out@ =~= header);
            assert(enc_pairs(self@.take(0)) == Seq::<u8>::empty()) by {
                assert(self@.take(0) =~= Seq::<(Seq<u8>, FrameView)>::empty());
            }
        }
        let ghost ps = pairs_view(self.0@);
        let n = self.0.len();
        let mut i: usize = 0;
        while i < n
            invariant
                i <= n,
                n == self.0@.len(),
                ps == pairs_view(self.0@),
                ps.len() == n,
                forall|j: int| 0 <= j < n ==> #[trigger] ps[j] == (
                self.0@[j].0@,
                frame_view_of(self.0@[j].1),
                ),
                header == seq![37u8] + dec_rep(self.0@.len()) + crlf(),
                out@ == header + enc_pairs(ps.take(i as int)),
            decreases n - i,
        {
            let ghost mid = out@;
            out.push(43);
            append_bytes(&mut out, self.0[i].0.as_slice());
            out.push(CR);
            out.push(LF);
            proof {
                assert(out@ =~= mid + enc_simple(self.0@[i as int].0@));
            }
            append_frame(&mut out, &self.0[i].1);
            proof {
                assert(ps.take(i + 1) =~= ps.take(i as int).push(ps[i as int]));
                lemma_enc_pairs_snoc(ps.take(i as int), ps[i as int]);
                assert(out@ =~= header + enc_pairs(ps.take(i + 1)));
            }
            i = i + 1;
        }
        proof {
            assert(ps.take(n as int) =~= ps);
        }
        out
    }
}

impl RespEncode for RespSet {
    open spec fn enc(&self) -> Seq<u8> {
        enc_frame(FrameView::SetData(self@))
    }

    fn encode(&self) -> (r: Vec<u8>) {
        let mut out: Vec<u8> = Vec::new();
        out.push(126);
        let digits = format_u64(self.0.len() as u64);
        append_bytes(&mut out, digits.as_slice());
        out.push(CR);
        out.push(LF);
        proof {
            lemma_frames_view_len(self.0@);
            assert(out@ =~= seq![126u8] + dec_rep(self.0@.len()) + crlf());
        }
        append_frames(&mut out, &self.0);
        out
    }
}

} // verus!
