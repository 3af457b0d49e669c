//! The properties that tie the encoder and the decoder together: a
//! well-formed frame decodes from its own encoding, consuming exactly
//! those bytes, and every strict prefix of an encoding is reported as
//! not yet complete, whatever the split.
use vstd::prelude::*;
use crate::decode::{
    spec_decode, decode_children, decode_entries, tail_from,
};
use crate::encode::{
    enc_frame, enc_seq, enc_pairs, enc_simple, enc_error, enc_integer, enc_bulk, enc_null,
    enc_bool, enc_double, crlf,
};
use crate::frame::{
    FrameView, ErrView, wf_view, wf_seq, wf_pairs, entries_sorted, map_insert, map_insert_all,
};
use crate::order::{lex_lt, lemma_lex_trichotomy};
use crate::text::{
    dec_rep, dec_val, all_digits, is_digit, spec_parse_i64, lemma_dec_rep_digits,
    lemma_dec_val_rep, is_double_repr, lemma_double_repr_clean,
};
use crate::wire::{
    CR, LF, clean_text, no_crlf, find_crlf, lemma_clean_text_no_crlf, lemma_find_crlf_line,
    lemma_find_crlf_line_prefix,
};

verus! {

/// Every wire form starts with its prefix byte and ends with CRLF.
pub proof fn lemma_enc_frame_len(v: FrameView)
    ensures
        enc_frame(v).len() >= 3,
{
    match v {
        FrameView::Integer(i) => {
            if i < 0 {
                lemma_dec_rep_digits((-i) as nat);
            } else {
                lemma_dec_rep_digits(i as nat);
            }
        },
        FrameView::BulkString(p) => match p {
            Some(b) => {
                lemma_dec_rep_digits(b.len());
            },
            None => {
            },
        },
        FrameView::Array(es) => match es {
            Some(es) => {
                lemma_dec_rep_digits(es.len());
            },
            None => {
            },
        },
        FrameView::MapData(ps) => {
            lemma_dec_rep_digits(ps.len());
        },
        FrameView::SetData(es) => {
            lemma_dec_rep_digits(es.len());
        },
        _ => {
        },
    }
}

/// Scanning `<prefix byte><text>\r\n<rest>` finds the line `<text>`.
/// The facts every per-kind decoding step rests on.
pub proof fn lemma_line_shape(c: u8, t: Seq<u8>, rest: Seq<u8>)
    requires
        clean_text(t),
    ensures
        ((seq![c] + t + crlf()) + rest).len() == t.len() + 3 + rest.len(),
        ((seq![c] + t + crlf()) + rest)[0] == c,
        find_crlf(((seq![c] + t + crlf()) + rest).skip(1)) == Some(t.len() as int),
        ((seq![c] + t + crlf()) + rest).skip(1).take(t.len() as int) == t,
        tail_from((seq![c] + t + crlf()) + rest, t.len() as int + 3) == rest,
{
    let s = (seq![c] + t + crlf()) + rest;
    lemma_clean_text_no_crlf(t);
    assert(s.skip(1) =~= t + seq![CR, LF] + rest);
    lemma_find_crlf_line(t, rest);
    assert(s.skip(1).take(t.len() as int) =~= t);
    assert(1 <= t.len() + 3 <= s.len());
    assert(s.skip(t.len() as int + 3) =~= rest);
}

/// A line of digits, optionally signed, reads back as its value.
pub proof fn lemma_parse_digits(n: nat)
    requires
        n <= i64::MAX,
    ensures
        spec_parse_i64(dec_rep(n)) == Some(n as int),
        clean_text(dec_rep(n)),
{
    lemma_dec_rep_digits(n);
    lemma_dec_val_rep(n);
    let s = dec_rep(n);
    assert(is_digit(s[0]));
    assert(s[0] != 43 && s[0] != 45);
}

pub proof fn lemma_parse_signed(c: u8, n: nat)
    requires
        c == 43 || c == 45,
        n <= 0x8000_0000_0000_0000,
        c == 43 ==> n <= i64::MAX,
    ensures
        spec_parse_i64(seq![c] + dec_rep(n)) == Some(
            if c == 45 {
                -(n as int)
            } else {
                n as int
            },
        ),
        clean_text(seq![c] + dec_rep(n)),
{
    lemma_dec_rep_digits(n);
    lemma_dec_val_rep(n);
    let s = seq![c] + dec_rep(n);
    assert(s[0] == c);
    assert(s.skip(1) =~= dec_rep(n));
    assert forall|i: int| 0 <= i < s.len() implies #[trigger] s[i] != CR && s[i] != LF by {
        if i > 0 {
            assert(is_digit(dec_rep(n)[i - 1]));
            assert(s[i] == dec_rep(n)[i - 1]);
        }
    }
}


/// The simple-string and simple-error round trips.
pub proof fn lemma_rt_line(c: u8, t: Seq<u8>, rest: Seq<u8>)
    requires
        clean_text(t),
        c == 43 || c == 45,
    ensures
        spec_decode((seq![c] + t + crlf()) + rest) == Ok::<(FrameView, int), ErrView>(
            (
                if c == 43 {
                    FrameView::SimpleString(t)
                } else {
                    FrameView::Error(t)
                },
                t.len() as int + 3,
            ),
        ),
{
    lemma_line_shape(c, t, rest);
}

/// The integer round trip.
pub proof fn lemma_rt_integer(i: int, rest: Seq<u8>)
    requires
        i64::MIN <= i <= i64::MAX,
    ensures
        spec_decode(enc_integer(i) + rest) == Ok::<(FrameView, int), ErrView>(
            (FrameView::Integer(i), enc_integer(i).len() as int),
        ),
{
    let s = enc_integer(i) + rest;
    if i < 0 {
        let line = seq![45u8] + dec_rep((-i) as nat);
        lemma_parse_signed(45, (-i) as nat);
        lemma_line_shape(58, line, rest);
        assert(s =~= (seq![58u8] + line + crlf()) + rest);
        assert(enc_integer(i) =~= seq![58u8] + line + crlf());
    } else {
        let line = seq![43u8] + dec_rep(i as nat);
        lemma_parse_signed(43, i as nat);
        lemma_line_shape(58, line, rest);
        assert(s =~= (seq![58u8] + line + crlf()) + rest);
        assert(enc_integer(i) =~= seq![58u8] + line + crlf());
    }
}

/// The bulk-string round trip.
pub proof fn lemma_rt_bulk(p: Option<Seq<u8>>, rest: Seq<u8>)
    requires
        match p {
            Some(b) => no_crlf(b) && b.len() <= i64::MAX,
            None => true,
        },
    ensures
        spec_decode(enc_bulk(p) + rest) == Ok::<(FrameView, int), ErrView>(
            (FrameView::BulkString(p), enc_bulk(p).len() as int),
        ),
{
    let s = enc_bulk(p) + rest;
    match p {
        Some(b) => {
            let line = dec_rep(b.len());
            lemma_parse_digits(b.len());
            let tail = b + crlf() + rest;
            lemma_line_shape(36, line, tail);
            assert(s =~= (seq![36u8] + line + crlf()) + tail);
            assert(enc_bulk(p) =~= seq![36u8] + line + crlf() + b + crlf());
            lemma_find_crlf_line(b, rest);
            assert(tail =~= b + seq![CR, LF] + rest);
            assert(tail.take(b.len() as int) =~= b);
            assert(enc_bulk(p).len() == line.len() + 3 + b.len() + 2);
        },
        None => {
            let line = seq![45u8, 49u8];
            lemma_parse_minus_one();
            lemma_line_shape(36, line, rest);
            assert(s =~= (seq![36u8] + line + crlf()) + rest);
            assert(enc_bulk(p) =~= seq![36u8] + line + crlf());
        },
    }
}

/// The null round trip.
pub proof fn lemma_rt_null(rest: Seq<u8>)
    ensures
        spec_decode(enc_null() + rest) == Ok::<(FrameView, int), ErrView>((FrameView::Null, 3)),
{
    let line = Seq::<u8>::empty();
    lemma_line_shape(95, line, rest);
    assert(enc_null() + rest =~= (seq![95u8] + line + crlf()) + rest);
}

/// The boolean round trip.
pub proof fn lemma_rt_bool(b: bool, rest: Seq<u8>)
    ensures
        spec_decode(enc_bool(b) + rest) == Ok::<(FrameView, int), ErrView>(
            (FrameView::Boolean(b), 4),
        ),
{
    let s = enc_bool(b) + rest;
    let line = if b {
        seq![116u8]
    } else {
        seq![102u8]
    };
    lemma_line_shape(35, line, rest);
    assert(s =~= (seq![35u8] + line + crlf()) + rest);
    assert(enc_bool(b) =~= seq![35u8] + line + crlf());
    if !b {
        assert(seq![102u8][0] == 102u8 && seq![116u8][0] == 116u8);
        assert(seq![102u8] != seq![116u8]);
    }
}

/// The double round trip.
pub proof fn lemma_rt_double(d: Seq<u8>, rest: Seq<u8>)
    requires
        is_double_repr(d),
    ensures
        spec_decode(enc_double(d) + rest) == Ok::<(FrameView, int), ErrView>(
            (FrameView::Double(d), d.len() as int + 3),
        ),
{
    lemma_double_repr_clean(d);
    lemma_line_shape(44, d, rest);
    assert(enc_double(d) + rest =~= (seq![44u8] + d + crlf()) + rest);
}

/// The line `-1` reads back as minus one.
pub proof fn lemma_parse_minus_one()
    ensures
        spec_parse_i64(seq![45u8, 49u8]) == Some(-1int),
        clean_text(seq![45u8, 49u8]),
{
    let s = seq![45u8, 49u8];
    let body = s.skip(1);
    assert(body =~= seq![49u8]);
    assert(is_digit(body[0]));
    assert(all_digits(body));
    assert(body.drop_last() =~= Seq::<u8>::empty());
    assert(dec_val(Seq::<u8>::empty()) == 0);
    assert(dec_val(body) == 1);
}

/// A well-formed frame decodes from its own encoding, whatever follows,
/// and consumes exactly its own bytes.
#[verifier::rlimit(100)]
#[verifier::spinoff_prover]
pub proof fn lemma_enc_decode(v: FrameView, rest: Seq<u8>)
    requires
        wf_view(v),
    ensures
        spec_decode(enc_frame(v) + rest) == Ok::<(FrameView, int), ErrView>(
            (v, enc_frame(v).len() as int),
        ),
    decreases v,
{
    let s = enc_frame(v) + rest;
    match v {
        FrameView::SimpleString(t) => {
            lemma_rt_line(43, t, rest);
            assert(s == (seq![43u8] + t + crlf()) + rest);
        },
        FrameView::Error(t) => {
            lemma_rt_line(45, t, rest);
            assert(s == (seq![45u8] + t + crlf()) + rest);
        },
        FrameView::Integer(i) => {
            lemma_rt_integer(i, rest);
        },
        FrameView::BulkString(p) => {
            lemma_rt_bulk(p, rest);
        },
        FrameView::Null => {
            lemma_rt_null(rest);
        },
        FrameView::Boolean(b) => {
            lemma_rt_bool(b, rest);
        },
        FrameView::Double(d) => {
            lemma_rt_double(d, rest);
        },
        FrameView::Array(es) => match es {
            Some(es) => {
                let line = dec_rep(es.len());
                lemma_parse_digits(es.len());
                let tail = enc_seq(es) + rest;
                lemma_line_shape(42, line, tail);
                assert(s =~= (seq![42u8] + line + crlf()) + tail);
                assert(enc_frame(v) =~= seq![42u8] + line + crlf() + enc_seq(es));
                lemma_enc_decode_children(es, rest, true);
                assert(enc_frame(v).len() == line.len() + 3 + enc_seq(es).len());
            },
            None => {
                let line = seq![45u8, 49u8];
                lemma_parse_minus_one();
                lemma_line_shape(42, line, rest);
                assert(s =~= (seq![42u8] + line + crlf()) + rest);
                assert(enc_frame(v) =~= seq![42u8] + line + crlf());
            },
        },
        FrameView::MapData(ps) => {
            let line = dec_rep(ps.len());
            lemma_parse_digits(ps.len());
            let tail = enc_pairs(ps) + rest;
            lemma_line_shape(37, line, tail);
            assert(s =~= (seq![37u8] + line + crlf()) + tail);
            assert(enc_frame(v) =~= seq![37u8] + line + crlf() + enc_pairs(ps));
            lemma_enc_decode_entries(ps, rest, Seq::empty());
            lemma_sorted_insert_all(Seq::empty(), ps);
            assert(Seq::<(Seq<u8>, FrameView)>::empty() + ps =~= ps);
            assert(enc_frame(v).len() == line.len() + 3 + enc_pairs(ps).len());
        },
        FrameView::SetData(es) => {
            let line = dec_rep(es.len());
            lemma_parse_digits(es.len());
            let tail = enc_seq(es) + rest;
            lemma_line_shape(126, line, tail);
            assert(s =~= (seq![126u8] + line + crlf()) + tail);
            assert(enc_frame(v) =~= seq![126u8] + line + crlf() + enc_seq(es));
            lemma_enc_decode_children(es, rest, false);
            assert(Seq::<FrameView>::empty() + es =~= es);
            assert(enc_frame(v).len() == line.len() + 3 + enc_seq(es).len());
        },
    }
}

/// Well-formed frames decode one after the other from their encodings.
pub proof fn lemma_enc_decode_children(es: Seq<FrameView>, rest: Seq<u8>, wrap: bool)
    requires
        wf_seq(es),
    ensures
        decode_children(enc_seq(es) + rest, es.len(), wrap) == Ok::<(Seq<FrameView>, int), ErrView>(
            (es, enc_seq(es).len() as int),
        ),
    decreases es,
{
    if es.len() == 0 {
        assert(enc_seq(es) == Seq::<u8>::empty());
        assert(es =~= Seq::<FrameView>::empty());
    } else {
        let e0 = enc_frame(es[0]);
        let tailenc = enc_seq(es.skip(1));
        let s = enc_seq(es) + rest;
        assert(s =~= e0 + (tailenc + rest));
        lemma_enc_decode(es[0], tailenc + rest);
        lemma_enc_frame_len(es[0]);
        assert(tail_from(s, e0.len() as int) =~= tailenc + rest);
        lemma_enc_decode_children(es.skip(1), rest, wrap);
        assert(seq![es[0]] + es.skip(1) =~= es);
        assert(enc_seq(es).len() == e0.len() + tailenc.len());
    }
}

/// Well-formed entries decode one after the other; each lands in the
/// accumulating map.
pub proof fn lemma_enc_decode_entries(
    ps: Seq<(Seq<u8>, FrameView)>,
    rest: Seq<u8>,
    acc: Seq<(Seq<u8>, FrameView)>,
)
    requires
        wf_pairs(ps),
    ensures
        decode_entries(enc_pairs(ps) + rest, ps.len(), acc) == Ok::<
            (Seq<(Seq<u8>, FrameView)>, int),
            ErrView,
        >((map_insert_all(acc, ps), enc_pairs(ps).len() as int)),
    decreases ps,
{
    if ps.len() == 0 {
        assert(enc_pairs(ps) == Seq::<u8>::empty());
    } else {
        let k = ps[0].0;
        let v0 = ps[0].1;
        let ke = enc_simple(k);
        let ve = enc_frame(v0);
        let tailenc = enc_pairs(ps.skip(1));
        let s = enc_pairs(ps) + rest;
        assert(s =~= ke + (ve + (tailenc + rest)));
        lemma_line_shape(43, k, ve + (tailenc + rest));
        assert(s =~= (seq![43u8] + k + crlf()) + (ve + (tailenc + rest)));
        assert(spec_decode(s) == Ok::<(FrameView, int), ErrView>(
            (FrameView::SimpleString(k), ke.len() as int),
        ));
        assert(tail_from(s, ke.len() as int) =~= ve + (tailenc + rest));
        lemma_enc_decode(v0, tailenc + rest);
        lemma_enc_frame_len(v0);
        assert(tail_from(ve + (tailenc + rest), ve.len() as int) =~= tailenc + rest);
        assert(tail_from(s, ke.len() as int + ve.len() as int) =~= tailenc + rest);
        lemma_enc_decode_entries(ps.skip(1), rest, map_insert(acc, k, v0));
        assert(enc_pairs(ps).len() == ke.len() + ve.len() + tailenc.len());
    }
}

/// Putting a key greater than every present key appends the entry.
pub proof fn lemma_map_insert_append(acc: Seq<(Seq<u8>, FrameView)>, k: Seq<u8>, v: FrameView)
    requires
        forall|j: int| 0 <= j < acc.len() ==> lex_lt(#[trigger] acc[j].0, k),
    ensures
        map_insert(acc, k, v) == acc.push((k, v)),
    decreases acc.len(),
{
    if acc.len() == 0 {
        assert(map_insert(acc, k, v) =~= acc.push((k, v)));
    } else {
        lemma_lex_trichotomy(k, acc[0].0);
        assert(lex_lt(acc[0].0, k));
        assert forall|j: int| 0 <= j < acc.skip(1).len() implies lex_lt(
            #[trigger] acc.skip(1)[j].0,
            k,
        ) by {
            assert(acc.skip(1)[j] == acc[j + 1]);
        }
        lemma_map_insert_append(acc.skip(1), k, v);
        assert(seq![acc[0]] + acc.skip(1).push((k, v)) =~= acc.push((k, v)));
    }
}

/// Entries arriving in ascending key order pile up unchanged.
pub proof fn lemma_sorted_insert_all(
    acc: Seq<(Seq<u8>, FrameView)>,
    ps: Seq<(Seq<u8>, FrameView)>,
)
    requires
        entries_sorted(ps),
        forall|i: int, j: int|
            0 <= i < acc.len() && 0 <= j < ps.len() ==> lex_lt(
                #[trigger] acc[i].0,
                #[trigger] ps[j].0,
            ),
    ensures
        map_insert_all(acc, ps) == acc + ps,
    decreases ps,
{
    if ps.len() == 0 {
        assert(acc + ps =~= acc);
    } else {
        assert forall|j: int| 0 <= j < acc.len() implies lex_lt(#[trigger] acc[j].0, ps[0].0) by {
        }
        lemma_map_insert_append(acc, ps[0].0, ps[0].1);
        let acc2 = acc.push(ps[0]);
        let ps2 = ps.skip(1);
        assert(entries_sorted(ps2)) by {
            assert forall|i: int, j: int| 0 <= i < j < ps2.len() implies lex_lt(
                #[trigger] ps2[i].0,
                #[trigger] ps2[j].0,
            ) by {
                assert(ps2[i] == ps[i + 1]);
                assert(ps2[j] == ps[j + 1]);
            }
        }
        assert forall|i: int, j: int|
            0 <= i < acc2.len() && 0 <= j < ps2.len() implies lex_lt(
            #[trigger] acc2[i].0,
            #[trigger] ps2[j].0,
        ) by {
            assert(ps2[j] == ps[j + 1]);
            if i < acc.len() {
                assert(acc2[i] == acc[i]);
            } else {
                assert(acc2[i] == ps[0]);
                assert(lex_lt(ps[0].0, ps[j + 1].0));
            }
        }
        lemma_sorted_insert_all(acc2, ps2);
        assert(acc.push(ps[0]) + ps.skip(1) =~= acc + ps);
        assert(map_insert(acc, ps[0].0, ps[0].1) == acc2) by {
            assert(ps[0] == (ps[0].0, ps[0].1));
        }
    }
}

/// A cut inside `<prefix byte><text>\r\n` leaves no CRLF to find.
pub proof fn lemma_pfx_header(c: u8, t: Seq<u8>, tail: Seq<u8>, m: int)
    requires
        clean_text(t),
        1 <= m <= t.len() + 2,
    ensures
        ((seq![c] + t + crlf()) + tail).take(m).len() == m,
        ((seq![c] + t + crlf()) + tail).take(m)[0] == c,
        find_crlf(((seq![c] + t + crlf()) + tail).take(m).skip(1)) == None::<int>,
{
    let s = ((seq![c] + t + crlf()) + tail).take(m);
    lemma_clean_text_no_crlf(t);
    assert(s.skip(1) =~= (t + seq![CR, LF]).take(m - 1));
    lemma_find_crlf_line_prefix(t, m - 1);
}

/// A strict prefix of a bulk string's wire form is not yet complete.
pub proof fn lemma_pfx_bulk(p: Option<Seq<u8>>, m: int)
    requires
        match p {
            Some(b) => no_crlf(b) && b.len() <= i64::MAX,
            None => true,
        },
        1 <= m < enc_bulk(p).len(),
    ensures
        spec_decode(enc_bulk(p).take(m)) == Err::<(FrameView, int), ErrView>(ErrView::NotComplete),
{
    match p {
        Some(b) => {
            let line = dec_rep(b.len());
            lemma_parse_digits(b.len());
            let tail = b + crlf();
            assert(enc_bulk(p) =~= (seq![36u8] + line + crlf()) + tail);
            if m <= line.len() + 2 {
                lemma_pfx_header(36, line, tail, m);
            } else {
                let s = enc_bulk(p).take(m);
                let m2 = m - (line.len() + 3);
                assert(s =~= (seq![36u8] + line + crlf()) + tail.take(m2));
                lemma_line_shape(36, line, tail.take(m2));
                assert(tail.take(m2) =~= (b + seq![CR, LF]).take(m2));
                lemma_find_crlf_line_prefix(b, m2);
            }
        },
        None => {
            let line = seq![45u8, 49u8];
            lemma_parse_minus_one();
            assert(enc_bulk(p) =~= (seq![36u8] + line + crlf()) + Seq::<u8>::empty());
            lemma_pfx_header(36, line, Seq::empty(), m);
        },
    }
}

/// A strict prefix of any well-formed frame's wire form is not yet
/// complete, and the decoder consumes nothing.
#[verifier::rlimit(100)]
#[verifier::spinoff_prover]
pub proof fn lemma_enc_prefix(v: FrameView, m: int)
    requires
        wf_view(v),
        0 <= m < enc_frame(v).len(),
    ensures
        spec_decode(enc_frame(v).take(m)) == Err::<(FrameView, int), ErrView>(
            ErrView::NotComplete,
        ),
    decreases v,
{
    if m == 0 {
        assert(enc_frame(v).take(0) =~= Seq::<u8>::empty());
    } else {
        match v {
            FrameView::SimpleString(t) => {
                assert(enc_frame(v) =~= (seq![43u8] + t + crlf()) + Seq::<u8>::empty());
                lemma_pfx_header(43, t, Seq::empty(), m);
            },
            FrameView::Error(t) => {
                assert(enc_frame(v) =~= (seq![45u8] + t + crlf()) + Seq::<u8>::empty());
                lemma_pfx_header(45, t, Seq::empty(), m);
            },
            FrameView::Integer(i) => {
                let line = if i < 0 {
                    seq![45u8] + dec_rep((-i) as nat)
                } else {
                    seq![43u8] + dec_rep(i as nat)
                };
                if i < 0 {
                    lemma_parse_signed(45, (-i) as nat);
                } else {
                    lemma_parse_signed(43, i as nat);
                }
                assert(enc_frame(v) =~= (seq![58u8] + line + crlf()) + Seq::<u8>::empty());
                lemma_pfx_header(58, line, Seq::empty(), m);
            },
            FrameView::BulkString(p) => {
                lemma_pfx_bulk(p, m);
            },
            FrameView::Null => {
                assert(enc_frame(v) =~= (seq![95u8] + Seq::<u8>::empty() + crlf())
                    + Seq::<u8>::empty());
                lemma_pfx_header(95, Seq::empty(), Seq::empty(), m);
            },
            FrameView::Boolean(b) => {
                let line = if b {
                    seq![116u8]
                } else {
                    seq![102u8]
                };
                assert(enc_frame(v) =~= (seq![35u8] + line + crlf()) + Seq::<u8>::empty());
                lemma_pfx_header(35, line, Seq::empty(), m);
            },
            FrameView::Double(d) => {
                lemma_double_repr_clean(d);
                assert(enc_frame(v) =~= (seq![44u8] + d + crlf()) + Seq::<u8>::empty());
                lemma_pfx_header(44, d, Seq::empty(), m);
            },
            FrameView::Array(es) => match es {
                Some(es) => {
                    let line = dec_rep(es.len());
                    lemma_parse_digits(es.len());
                    let tail = enc_seq(es);
                    assert(enc_frame(v) =~= (seq![42u8] + line + crlf()) + tail);
                    if m <= line.len() + 2 {
                        lemma_pfx_header(42, line, tail, m);
                    } else {
                        let m2 = m - (line.len() + 3);
                        assert(enc_frame(v).take(m) =~= (seq![42u8] + line + crlf()) + tail.take(
                            m2,
                        ));
                        lemma_line_shape(42, line, tail.take(m2));
                        lemma_enc_prefix_children(es, m2, true);
                    }
                },
                None => {
                    let line = seq![45u8, 49u8];
                    lemma_parse_minus_one();
                    assert(enc_frame(v) =~= (seq![42u8] + line + crlf()) + Seq::<u8>::empty());
                    lemma_pfx_header(42, line, Seq::empty(), m);
                },
            },
            FrameView::MapData(ps) => {
                let line = dec_rep(ps.len());
                lemma_parse_digits(ps.len());
                let tail = enc_pairs(ps);
                assert(enc_frame(v) =~= (seq![37u8] + line + crlf()) + tail);
                if m <= line.len() + 2 {
                    lemma_pfx_header(37, line, tail, m);
                } else {
                    let m2 = m - (line.len() + 3);
                    assert(enc_frame(v).take(m) =~= (seq![37u8] + line + crlf()) + tail.take(m2));
                    lemma_line_shape(37, line, tail.take(m2));
                    lemma_enc_prefix_entries(ps, m2, Seq::empty());
                }
            },
            FrameView::SetData(es) => {
                let line = dec_rep(es.len());
                lemma_parse_digits(es.len());
                let tail = enc_seq(es);
                assert(enc_frame(v) =~= (seq![126u8] + line + crlf()) + tail);
                if m <= line.len() + 2 {
                    lemma_pfx_header(126, line, tail, m);
                } else {
                    let m2 = m - (line.len() + 3);
                    assert(enc_frame(v).take(m) =~= (seq![126u8] + line + crlf()) + tail.take(
                        m2,
                    ));
                    lemma_line_shape(126, line, tail.take(m2));
                    lemma_enc_prefix_children(es, m2, false);
                }
            },
        }
    }
}

/// A cut anywhere inside a row of encoded frames is not yet complete.
pub proof fn lemma_enc_prefix_children(es: Seq<FrameView>, m: int, wrap: bool)
    requires
        wf_seq(es),
        0 <= m < enc_seq(es).len(),
    ensures
        decode_children(enc_seq(es).take(m), es.len(), wrap) == Err::<
            (Seq<FrameView>, int),
            ErrView,
        >(ErrView::NotComplete),
    decreases es,
{
    assert(es.len() > 0);
    let e0 = enc_frame(es[0]);
    let tailenc = enc_seq(es.skip(1));
    let s = enc_seq(es).take(m);
    if m < e0.len() {
        assert(s =~= e0.take(m));
        lemma_enc_prefix(es[0], m);
        if m == 0 {
            assert(e0.take(0) =~= Seq::<u8>::empty());
        }
    } else {
        let m2 = m - e0.len();
        assert(s =~= e0 + tailenc.take(m2));
        lemma_enc_decode(es[0], tailenc.take(m2));
        lemma_enc_frame_len(es[0]);
        assert(tail_from(s, e0.len() as int) =~= tailenc.take(m2));
        lemma_enc_prefix_children(es.skip(1), m2, wrap);
    }
}

/// A cut anywhere inside a row of encoded entries is not yet complete.
#[verifier::rlimit(100)]
#[verifier::spinoff_prover]
pub proof fn lemma_enc_prefix_entries(
    ps: Seq<(Seq<u8>, FrameView)>,
    m: int,
    acc: Seq<(Seq<u8>, FrameView)>,
)
    requires
        wf_pairs(ps),
        0 <= m < enc_pairs(ps).len(),
    ensures
        decode_entries(enc_pairs(ps).take(m), ps.len(), acc) == Err::<
            (Seq<(Seq<u8>, FrameView)>, int),
            ErrView,
        >(ErrView::NotComplete),
    decreases ps,
{
    assert(ps.len() > 0);
    let k = ps[0].0;
    let v0 = ps[0].1;
    let ke = enc_simple(k);
    let ve = enc_frame(v0);
    let tailenc = enc_pairs(ps.skip(1));
    let s = enc_pairs(ps).take(m);
    assert(enc_pairs(ps) == enc_simple(k) + enc_frame(v0) + tailenc);
    if m < ke.len() {
        assert(s =~= ke.take(m));
        if m == 0 {
            assert(ke.take(0) =~= Seq::<u8>::empty());
        } else {
            assert(ke =~= (seq![43u8] + k + crlf()) + Seq::<u8>::empty());
            assert(ke.take(m) =~= ((seq![43u8] + k + crlf()) + Seq::<u8>::empty()).take(m));
            lemma_pfx_header(43, k, Seq::empty(), m);
        }
        assert(spec_decode(s) == Err::<(FrameView, int), ErrView>(ErrView::NotComplete));
    } else {
        let m2 = m - ke.len();
        if m2 < ve.len() {
            assert(s =~= ke + ve.take(m2));
            assert(s =~= (seq![43u8] + k + crlf()) + ve.take(m2));
            lemma_line_shape(43, k, ve.take(m2));
            assert(spec_decode(s) == Ok::<(FrameView, int), ErrView>(
                (FrameView::SimpleString(k), ke.len() as int),
            ));
            assert(tail_from(s, ke.len() as int) =~= ve.take(m2));
            lemma_enc_prefix(v0, m2);
            if m2 == 0 {
                assert(ve.take(0) =~= Seq::<u8>::empty());
            }
            assert(spec_decode(tail_from(s, ke.len() as int)) == Err::<
                (FrameView, int),
                ErrView,
            >(ErrView::NotComplete));
        } else {
            let m3 = m2 - ve.len();
            assert(s =~= ke + (ve + tailenc.take(m3)));
            assert(s =~= (seq![43u8] + k + crlf()) + (ve + tailenc.take(m3)));
            lemma_line_shape(43, k, ve + tailenc.take(m3));
            assert(spec_decode(s) == Ok::<(FrameView, int), ErrView>(
                (FrameView::SimpleString(k), ke.len() as int),
            ));
            assert(tail_from(s, ke.len() as int) =~= ve + tailenc.take(m3));
            lemma_enc_decode(v0, tailenc.take(m3));
            lemma_enc_frame_len(v0);
            assert(tail_from(ve + tailenc.take(m3), ve.len() as int) =~= tailenc.take(m3));
            assert(tail_from(s, ke.len() as int + ve.len() as int) =~= tailenc.take(m3));
            lemma_enc_prefix_entries(ps.skip(1), m3, map_insert(acc, k, v0));
        }
    }
}

/// Incrementality: cut a well-formed frame's encoding anywhere; the
/// piece before the cut is not yet complete and consumes nothing, and
/// the whole line of bytes still decodes to the frame.
pub proof fn lemma_incrementality(v: FrameView, m: int)
    requires
        wf_view(v),
        0 <= m < enc_frame(v).len(),
    ensures
        spec_decode(enc_frame(v).take(m)) == Err::<(FrameView, int), ErrView>(
            ErrView::NotComplete,
        ),
        spec_decode(enc_frame(v).take(m) + enc_frame(v).skip(m)) == Ok::<
            (FrameView, int),
            ErrView,
        >((v, enc_frame(v).len() as int)),
{
    lemma_enc_prefix(v, m);
    assert(enc_frame(v).take(m) + enc_frame(v).skip(m) =~= enc_frame(v));
    lemma_round_trip(v);
}

/// Round trip: a well-formed frame decodes from its own encoding and
/// consumes exactly the bytes the encoder wrote.
pub proof fn lemma_round_trip(v: FrameView)
    requires
        wf_view(v),
    ensures
        spec_decode(enc_frame(v)) == Ok::<(FrameView, int), ErrView>(
            (v, enc_frame(v).len() as int),
        ),
{
    lemma_enc_decode(v, Seq::empty());
    assert(enc_frame(v) + Seq::<u8>::empty() =~= enc_frame(v));
}

/// The three wire-level nulls decode to three distinct frames.
pub proof fn lemma_null_distinct()
    ensures
        spec_decode(enc_bulk(None)) == Ok::<(FrameView, int), ErrView>(
            (FrameView::BulkString(None), 5),
        ),
        spec_decode(enc_frame(FrameView::Array(None))) == Ok::<(FrameView, int), ErrView>(
            (FrameView::Array(None), 5),
        ),
        spec_decode(enc_null()) == Ok::<(FrameView, int), ErrView>((FrameView::Null, 3)),
        FrameView::BulkString(None) != FrameView::Array(None),
        FrameView::BulkString(None) != FrameView::Null,
        FrameView::Array(None) != FrameView::Null,
{
    lemma_round_trip(FrameView::BulkString(None));
    lemma_round_trip(FrameView::Array(None));
    lemma_round_trip(FrameView::Null);
    lemma_rt_bulk(None, Seq::empty());
    assert(enc_bulk(None) + Seq::<u8>::empty() =~= enc_bulk(None));
    lemma_rt_null(Seq::empty());
    assert(enc_null() + Seq::<u8>::empty() =~= enc_null());
}

/// Writing a key twice with the same value changes nothing the second
/// time, and a read afterwards answers that value.
pub proof fn lemma_set_idempotent(k: Seq<u8>, v: FrameView, st: crate::backend::StoreView)
    ensures
        ({
            let st1 = crate::cmd::apply_command(
                crate::cmd::CommandView::SetCmd { key: k, value: v },
                st,
            ).0;
            let st2 = crate::cmd::apply_command(
                crate::cmd::CommandView::SetCmd { key: k, value: v },
                st1,
            ).0;
            st2 == st1 && crate::cmd::apply_command(crate::cmd::CommandView::Get { key: k }, st1).1
                == v
        }),
{
    let st1 = crate::cmd::apply_command(crate::cmd::CommandView::SetCmd { key: k, value: v }, st).0;
    let st2 = crate::cmd::apply_command(
        crate::cmd::CommandView::SetCmd { key: k, value: v },
        st1,
    ).0;
    assert(st1.kv.insert(k, v) =~= st1.kv);
    assert(st2.kv == st1.kv);
}

/// A multi-field read answers an array of exactly one frame per
/// requested field, positionally aligned, with the null frame where a
/// field is missing.
pub proof fn lemma_hmget_shape(st: crate::backend::StoreView, key: Seq<u8>, fields: Seq<Seq<u8>>)
    ensures
        ({
            let r = crate::cmd::apply_command(
                crate::cmd::CommandView::HMGet { key, fields },
                st,
            ).1;
            &&& r matches FrameView::Array(a)
            &&& a matches Some(es)
            &&& es.len() == fields.len()
            &&& forall|i: int|
                0 <= i < fields.len() ==> #[trigger] es[i] == crate::cmd::hash_lookup(
                    st,
                    key,
                    fields[i],
                )
        }),
        crate::cmd::apply_command(crate::cmd::CommandView::HMGet { key, fields }, st).0 == st,
{
}

/// The set of members named in a row of texts.
pub open spec fn members_of(ms: Seq<Seq<u8>>) -> Set<Seq<u8>> {
    Set::new(|m: Seq<u8>| exists|i: int| 0 <= i < ms.len() && ms[i] == m)
}

/// The set of a row's members grows one head at a time.
pub proof fn lemma_members_unfold(ms: Seq<Seq<u8>>)
    requires
        ms.len() > 0,
    ensures
        members_of(ms) == members_of(ms.skip(1)).insert(ms[0]),
{
    assert forall|m: Seq<u8>| members_of(ms).contains(m) implies m == ms[0] || members_of(
        ms.skip(1),
    ).contains(m) by {
        let i = choose|i: int| 0 <= i < ms.len() && ms[i] == m;
        if i > 0 {
            assert(ms.skip(1)[i - 1] == m);
        }
    }
    assert forall|m: Seq<u8>| members_of(ms.skip(1)).contains(m) implies members_of(ms).contains(
        m,
    ) by {
        let i = choose|i: int| 0 <= i < ms.skip(1).len() && ms.skip(1)[i] == m;
        assert(ms[i + 1] == m);
    }
    assert(members_of(ms).contains(ms[0]));
    assert(members_of(ms) =~= members_of(ms.skip(1)).insert(ms[0]));
}

/// A row of members names a finite set, no larger than the row.
pub proof fn lemma_members_finite(ms: Seq<Seq<u8>>)
    ensures
        members_of(ms).finite(),
        members_of(ms).len() <= ms.len(),
    decreases ms.len(),
{
    broadcast use vstd::set::group_set_axioms;

    if ms.len() == 0 {
        assert(members_of(ms) =~= Set::<Seq<u8>>::empty());
    } else {
        lemma_members_finite(ms.skip(1));
        lemma_members_unfold(ms);
    }
}

/// Adding members counts exactly the distinct ones not already present.
pub proof fn lemma_sadd_count(s: Set<Seq<u8>>, ms: Seq<Seq<u8>>)
    ensures
        crate::cmd::sadd_steps(s, ms).1 == members_of(ms).difference(s).len(),
    decreases ms.len(),
{
    broadcast use vstd::set::group_set_axioms;

    if ms.len() == 0 {
        assert(members_of(ms) =~= Set::<Seq<u8>>::empty());
        assert(members_of(ms).difference(s) =~= Set::<Seq<u8>>::empty());
    } else {
        let m0 = ms[0];
        lemma_members_unfold(ms);
        lemma_sadd_count(s.insert(m0), ms.skip(1));
        let d = members_of(ms).difference(s);
        let d2 = members_of(ms.skip(1)).difference(s.insert(m0));
        lemma_members_finite(ms.skip(1));
        vstd::set_lib::lemma_len_subset(d2, members_of(ms.skip(1)));
        if s.contains(m0) {
            assert(d =~= d2);
        } else {
            assert(d =~= d2.insert(m0));
            assert(!d2.contains(m0));
            assert(d.len() == d2.len() + 1);
        }
    }
}

/// The reply and final state of a member addition, in set terms: the
/// count is the size of the distinct new members, and the final set
/// under the key is the union — nothing lost, nothing else added.
pub proof fn lemma_sadd_reply(st: crate::backend::StoreView, k: Seq<u8>, ms: Seq<Seq<u8>>)
    requires
        ms.len() <= i64::MAX,
    ensures
        crate::cmd::apply_command(crate::cmd::CommandView::SADD { key: k, members: ms }, st).1
            == FrameView::Integer(
            members_of(ms).difference(crate::cmd::set_of(st, k)).len() as int,
        ),
        crate::cmd::apply_command(crate::cmd::CommandView::SADD { key: k, members: ms }, st).0.sets
            == (if ms.len() == 0 {
            st.sets
        } else {
            st.sets.insert(k, crate::cmd::set_of(st, k).union(members_of(ms)))
        }),
{
    let s0 = crate::cmd::set_of(st, k);
    if ms.len() == 0 {
        assert(members_of(ms) =~= Set::<Seq<u8>>::empty());
        assert(members_of(ms).difference(s0) =~= Set::<Seq<u8>>::empty());
    } else {
        lemma_sadd_union(s0, ms);
        lemma_sadd_count(s0, ms);
        lemma_members_finite(ms);
        vstd::set_lib::lemma_len_subset(members_of(ms).difference(s0), members_of(ms));
        let c = crate::cmd::sadd_steps(s0, ms).1;
        assert(0 <= c <= ms.len());
        assert(c as i64 as int == c);
    }
}

/// Adding members leaves exactly the union: nothing is lost, nothing
/// else appears.
pub proof fn lemma_sadd_union(s: Set<Seq<u8>>, ms: Seq<Seq<u8>>)
    ensures
        crate::cmd::sadd_steps(s, ms).0 == s.union(members_of(ms)),
    decreases ms.len(),
{
    if ms.len() == 0 {
        assert(members_of(ms) =~= Set::<Seq<u8>>::empty());
        assert(s.union(members_of(ms)) =~= s);
    } else {
        lemma_members_unfold(ms);
        lemma_sadd_union(s.insert(ms[0]), ms.skip(1));
        assert(s.insert(ms[0]).union(members_of(ms.skip(1))) =~= s.union(members_of(ms)));
    }
}

/// Adding only members already present counts nothing.
pub proof fn lemma_sadd_existing(s: Set<Seq<u8>>, ms: Seq<Seq<u8>>)
    requires
        forall|i: int| 0 <= i < ms.len() ==> s.contains(#[trigger] ms[i]),
    ensures
        crate::cmd::sadd_steps(s, ms).1 == 0,
    decreases ms.len(),
{
    if ms.len() > 0 {
        assert(s.insert(ms[0]) =~= s);
        assert forall|i: int| 0 <= i < ms.skip(1).len() implies s.contains(
            #[trigger] ms.skip(1)[i],
        ) by {
            assert(ms.skip(1)[i] == ms[i + 1]);
        }
        lemma_sadd_existing(s, ms.skip(1));
    }
}

/// Two member additions under one key land in the same final set in
/// either order: the serial orders a fair lock can produce agree, so no
/// insert is lost.
pub proof fn lemma_sadd_commutes(
    st: crate::backend::StoreView,
    k: Seq<u8>,
    ms1: Seq<Seq<u8>>,
    ms2: Seq<Seq<u8>>,
)
    requires
        ms1.len() > 0,
        ms2.len() > 0,
    ensures
        ({
            let a = crate::cmd::apply_command(
                crate::cmd::CommandView::SADD { key: k, members: ms2 },
                crate::cmd::apply_command(
                    crate::cmd::CommandView::SADD { key: k, members: ms1 },
                    st,
                ).0,
            ).0;
            let b = crate::cmd::apply_command(
                crate::cmd::CommandView::SADD { key: k, members: ms1 },
                crate::cmd::apply_command(
                    crate::cmd::CommandView::SADD { key: k, members: ms2 },
                    st,
                ).0,
            ).0;
            a.sets == b.sets && a.sets[k] == crate::cmd::set_of(st, k).union(
                members_of(ms1).union(members_of(ms2)),
            )
        }),
{
    let s0 = crate::cmd::set_of(st, k);
    let st1 = crate::cmd::apply_command(crate::cmd::CommandView::SADD { key: k, members: ms1 }, st).0;
    let st2 = crate::cmd::apply_command(crate::cmd::CommandView::SADD { key: k, members: ms2 }, st).0;
    lemma_sadd_union(s0, ms1);
    lemma_sadd_union(s0, ms2);
    lemma_sadd_union(crate::cmd::set_of(st1, k), ms2);
    lemma_sadd_union(crate::cmd::set_of(st2, k), ms1);
    let a = crate::cmd::apply_command(
        crate::cmd::CommandView::SADD { key: k, members: ms2 },
        st1,
    ).0;
    let b = crate::cmd::apply_command(
        crate::cmd::CommandView::SADD { key: k, members: ms1 },
        st2,
    ).0;
    assert(a.sets[k] =~= s0.union(members_of(ms1).union(members_of(ms2))));
    assert(b.sets[k] =~= s0.union(members_of(ms1).union(members_of(ms2))));
    assert(a.sets =~= b.sets);
}

} // verus!
