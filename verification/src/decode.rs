//! Decoding: the partial inverse of encoding. The decoder is driven by
//! the prefix byte, reports `RespNotComplete` without consuming anything
//! when the buffer does not yet hold a whole frame, and otherwise either
//! yields the frame with the exact count of bytes it occupies or a fatal
//! error.
use vstd::prelude::*;
use crate::frame::{
    FrameView, ErrView, RespFrame, RespError, SimpleString, SimpleError, BulkString, RespArray,
    RespNull, RespMap, RespSet, frames_view, map_insert, wrap_in_container,
    lemma_frames_view_push,
};
use crate::msg;
use crate::text::{spec_parse_i64, parse_i64_range, is_double_repr, check_double};
use crate::wire::{CR, LF, clean_text, find_crlf, find_crlf_from};

verus! {

/// The bytes of `s` from `n` on; empty when `n` is out of range. The
/// guard only serves termination: every caller stays in range.
pub open spec fn tail_from(s: Seq<u8>, n: int) -> Seq<u8> {
    if 1 <= n <= s.len() {
        s.skip(n)
    } else {
        Seq::empty()
    }
}

/// `+<text>\r\n`, the text free of CR and LF.
pub open spec fn spec_decode_simple(s: Seq<u8>) -> Result<(Seq<u8>, int), ErrView> {
    if s.len() == 0 {
        Err(ErrView::NotComplete)
    } else {
        match find_crlf(s.skip(1)) {
            None => Err(ErrView::NotComplete),
            Some(p) => {
                let payload = s.skip(1).take(p);
                if clean_text(payload) {
                    Ok((payload, 1 + p + 2))
                } else {
                    Err(ErrView::Invalid(msg::invalid_simple_text_text()))
                }
            },
        }
    }
}

/// `:<sign><digits>\r\n`; the sign may be left out.
pub open spec fn spec_decode_integer(s: Seq<u8>) -> Result<(int, int), ErrView> {
    if s.len() == 0 {
        Err(ErrView::NotComplete)
    } else {
        match find_crlf(s.skip(1)) {
            None => Err(ErrView::NotComplete),
            Some(p) => {
                let payload = s.skip(1).take(p);
                match spec_parse_i64(payload) {
                    Some(v) => Ok((v, 1 + p + 2)),
                    None => Err(
                        ErrView::Parse { typ: msg::i64_label_text(), data: payload },
                    ),
                }
            },
        }
    }
}

/// `_\r\n`
pub open spec fn spec_decode_null(s: Seq<u8>) -> Result<(int, int), ErrView> {
    if s.len() == 0 {
        Err(ErrView::NotComplete)
    } else {
        match find_crlf(s.skip(1)) {
            None => Err(ErrView::NotComplete),
            Some(p) => {
                if p == 0 {
                    Ok((0, 3))
                } else {
                    Err(ErrView::Invalid(msg::invalid_null_text()))
                }
            },
        }
    }
}

/// `#t\r\n` or `#f\r\n`
pub open spec fn spec_decode_bool(s: Seq<u8>) -> Result<(bool, int), ErrView> {
    if s.len() == 0 {
        Err(ErrView::NotComplete)
    } else {
        match find_crlf(s.skip(1)) {
            None => Err(ErrView::NotComplete),
            Some(p) => {
                let payload = s.skip(1).take(p);
                if payload == seq![116u8] {
                    Ok((true, 4))
                } else if payload == seq![102u8] {
                    Ok((false, 4))
                } else {
                    Err(ErrView::Invalid(msg::invalid_bool_text()))
                }
            },
        }
    }
}

/// `,<written form>\r\n`
pub open spec fn spec_decode_double(s: Seq<u8>) -> Result<(Seq<u8>, int), ErrView> {
    if s.len() == 0 {
        Err(ErrView::NotComplete)
    } else {
        match find_crlf(s.skip(1)) {
            None => Err(ErrView::NotComplete),
            Some(p) => {
                let payload = s.skip(1).take(p);
                if is_double_repr(payload) {
                    Ok((payload, 1 + p + 2))
                } else {
                    Err(
                        ErrView::Parse { typ: msg::double_label_text(), data: payload },
                    )
                }
            },
        }
    }
}

/// `$<len>\r\n<bytes>\r\n`; `$-1\r\n` is the null bulk string. The bytes
/// before the next CRLF must number exactly `<len>`.
pub open spec fn spec_decode_bulk(s: Seq<u8>) -> Result<(Option<Seq<u8>>, int), ErrView> {
    if s.len() == 0 {
        Err(ErrView::NotComplete)
    } else {
        match find_crlf(s.skip(1)) {
            None => Err(ErrView::NotComplete),
            Some(p) => {
                let header = 1 + p + 2;
                match spec_parse_i64(s.skip(1).take(p)) {
                    None => Err(ErrView::Invalid(msg::invalid_length_text())),
                    Some(len) => {
                        if len == -1 {
                            Ok((None, header))
                        } else if len < 0 {
                            Err(ErrView::Invalid(msg::invalid_length_text()))
                        } else {
                            let rest = tail_from(s, header);
                            match find_crlf(rest) {
                                None => Err(ErrView::NotComplete),
                                Some(q) => {
                                    let payload = rest.take(q);
                                    if payload.len() == len {
                                        Ok((Some(payload), header + q + 2))
                                    } else {
                                        Err(
                                            ErrView::NotEqualLength {
                                                expected: len as usize as int,
                                                decoded: payload.len() as int,
                                            },
                                        )
                                    }
                                },
                            }
                        }
                    },
                }
            },
        }
    }
}

/// Decode `k` child frames in a row. A child's empty-buffer outcome
/// becomes `NotComplete`; when `wrap` is set, its other failures are
/// wrapped with the container's label, as an array reports them.
pub open spec fn decode_children(s: Seq<u8>, k: nat, wrap: bool) -> Result<
    (Seq<FrameView>, int),
    ErrView,
>
    decreases s.len(), k + 2,
{
    if k == 0 {
        Ok((Seq::empty(), 0))
    } else {
        match spec_decode(s) {
            Ok((f, n)) => match decode_children(tail_from(s, n), (k - 1) as nat, wrap) {
                Ok((es, m)) => Ok((seq![f] + es, n + m)),
                Err(e) => Err(e),
            },
            Err(e) => Err(
                if wrap {
                    wrap_in_container(e)
                } else {
                    e
                },
            ),
        }
    }
}

/// Decode `k` key-value entries in a row into `acc`. Keys must arrive as
/// simple strings; a later equal key replaces the earlier entry.
pub open spec fn decode_entries(
    s: Seq<u8>,
    k: nat,
    acc: Seq<(Seq<u8>, FrameView)>,
) -> Result<(Seq<(Seq<u8>, FrameView)>, int), ErrView>
    decreases s.len(), k + 2,
{
    if k == 0 {
        Ok((acc, 0))
    } else {
        match spec_decode(s) {
            Ok((kf, n1)) => match spec_decode(tail_from(s, n1)) {
                Ok((vf, n2)) => match kf {
                    FrameView::SimpleString(key) => match decode_entries(
                        tail_from(s, n1 + n2),
                        (k - 1) as nat,
                        map_insert(acc, key, vf),
                    ) {
                        Ok((es, m)) => Ok((es, n1 + n2 + m)),
                        Err(e) => Err(e),
                    },
                    _ => Err(ErrView::Invalid(msg::map_key_kind_text())),
                },
                Err(e) => Err(wrap_in_container(e)),
            },
            Err(e) => Err(wrap_in_container(e)),
        }
    }
}

/// The count a container header declares, then its children.
pub open spec fn spec_decode_array(s: Seq<u8>) -> Result<(Option<Seq<FrameView>>, int), ErrView>
    decreases s.len(), 0nat,
{
    if s.len() == 0 {
        Err(ErrView::NotComplete)
    } else {
        match find_crlf(s.skip(1)) {
            None => Err(ErrView::NotComplete),
            Some(p) => {
                let header = 1 + p + 2;
                match spec_parse_i64(s.skip(1).take(p)) {
                    None => Err(ErrView::Invalid(msg::invalid_length_text())),
                    Some(len) => {
                        if len == -1 {
                            Ok((None, header))
                        } else if len < 0 {
                            Err(ErrView::Invalid(msg::invalid_length_text()))
                        } else {
                            match decode_children(tail_from(s, header), len as nat, true) {
                                Ok((es, m)) => Ok((Some(es), header + m)),
                                Err(e) => Err(e),
                            }
                        }
                    },
                }
            },
        }
    }
}

/// `%<n>\r\n` then `n` key-value entries.
pub open spec fn spec_decode_map(s: Seq<u8>) -> Result<(Seq<(Seq<u8>, FrameView)>, int), ErrView>
    decreases s.len(), 0nat,
{
    if s.len() == 0 {
        Err(ErrView::NotComplete)
    } else {
        match find_crlf(s.skip(1)) {
            None => Err(ErrView::NotComplete),
            Some(p) => {
                let header = 1 + p + 2;
                match spec_parse_i64(s.skip(1).take(p)) {
                    None => Err(ErrView::Invalid(msg::invalid_length_text())),
                    Some(len) => {
                        if len < 0 {
                            Err(ErrView::Invalid(msg::invalid_length_text()))
                        } else {
                            match decode_entries(tail_from(s, header), len as nat, Seq::empty()) {
                                Ok((es, m)) => Ok((es, header + m)),
                                Err(e) => Err(e),
                            }
                        }
                    },
                }
            },
        }
    }
}

/// `~<n>\r\n` then `n` frames; child failures pass through unwrapped.
pub open spec fn spec_decode_set(s: Seq<u8>) -> Result<(Seq<FrameView>, int), ErrView>
    decreases s.len(), 0nat,
{
    if s.len() == 0 {
        Err(ErrView::NotComplete)
    } else {
        match find_crlf(s.skip(1)) {
            None => Err(ErrView::NotComplete),
            Some(p) => {
                let header = 1 + p + 2;
                match spec_parse_i64(s.skip(1).take(p)) {
                    None => Err(ErrView::Invalid(msg::invalid_length_text())),
                    Some(len) => {
                        if len < 0 {
                            Err(ErrView::Invalid(msg::invalid_length_text()))
                        } else {
                            match decode_children(tail_from(s, header), len as nat, false) {
                                Ok((es, m)) => Ok((Seq::empty() + es, header + m)),
                                Err(e) => Err(e),
                            }
                        }
                    },
                }
            },
        }
    }
}

/// Decode the frame at the head of `s`: `Ok` carries the frame and the
/// exact count of bytes it occupies; `NotComplete` asks for more bytes;
/// anything else is fatal. The first byte picks the frame kind; a prefix
/// outside the ten kinds is invalid, never `NotComplete`.
pub open spec fn spec_decode(s: Seq<u8>) -> Result<(FrameView, int), ErrView>
    decreases s.len(), 1nat,
{
    if s.len() == 0 {
        Err(ErrView::NotComplete)
    } else if s[0] == 43 {
        match spec_decode_simple(s) {
            Ok((t, n)) => Ok((FrameView::SimpleString(t), n)),
            Err(e) => Err(e),
        }
    } else if s[0] == 45 {
        match spec_decode_simple(s) {
            Ok((t, n)) => Ok((FrameView::Error(t), n)),
            Err(e) => Err(e),
        }
    } else if s[0] == 58 {
        match spec_decode_integer(s) {
            Ok((v, n)) => Ok((FrameView::Integer(v), n)),
            Err(e) => Err(e),
        }
    } else if s[0] == 36 {
        match spec_decode_bulk(s) {
            Ok((p, n)) => Ok((FrameView::BulkString(p), n)),
            Err(e) => Err(e),
        }
    } else if s[0] == 42 {
        match spec_decode_array(s) {
            Ok((es, n)) => Ok((FrameView::Array(es), n)),
            Err(e) => Err(e),
        }
    } else if s[0] == 95 {
        match spec_decode_null(s) {
            Ok((_, n)) => Ok((FrameView::Null, n)),
            Err(e) => Err(e),
        }
    } else if s[0] == 35 {
        match spec_decode_bool(s) {
            Ok((b, n)) => Ok((FrameView::Boolean(b), n)),
            Err(e) => Err(e),
        }
    } else if s[0] == 44 {
        match spec_decode_double(s) {
            Ok((d, n)) => Ok((FrameView::Double(d), n)),
            Err(e) => Err(e),
        }
    } else if s[0] == 37 {
        match spec_decode_map(s) {
            Ok((ps, n)) => Ok((FrameView::MapData(ps), n)),
            Err(e) => Err(e),
        }
    } else if s[0] == 126 {
        match spec_decode_set(s) {
            Ok((es, n)) => Ok((FrameView::SetData(es), n)),
            Err(e) => Err(e),
        }
    } else {
        Err(ErrView::Invalid(msg::unsupported_prefix_text().push(s[0])))
    }
}

/// Whether `v` holds neither CR nor LF.
fn is_clean(v: &[u8]) -> (r: bool)
    ensures
        r == clean_text(v@),
{
    let n = v.len();
    let mut i: usize = 0;
    while i < n
        invariant
            i <= n,
            n == v@.len(),
            forall|j: int| 0 <= j < i ==> #[trigger] v@[j] != CR && v@[j] != LF,
        decreases n - i,
    {
        let b = v[i];
        if b == CR || b == LF {
            return false;
        }
        i = i + 1;
    }
    true
}

/// The bytes of the region `[a, b)` of `data`.
fn copy_range(data: &[u8], a: usize, b: usize) -> (r: Vec<u8>)
    requires
        a <= b <= data@.len(),
    ensures
        r@ == data@.subrange(a as int, b as int),
{
    let mut out: Vec<u8> = Vec::new();
    let mut i: usize = a;
    while i < b
        invariant
            a <= i <= b <= data@.len(),
            out@ =~= data@.subrange(a as int, i as int),
        decreases b - i,
    {
        out.push(data[i]);
        proof {
            assert(out@ =~= data@.subrange(a as int, i + 1));
        }
        i = i + 1;
    }
    out
}

/// Decode a simple string or simple error payload at `pos`.
fn decode_simple_at(data: &[u8], pos: usize) -> (r: Result<(Vec<u8>, usize), RespError>)
    requires
        pos <= data@.len(),
    ensures
        match r {
            Ok((payload, n)) => spec_decode_simple(data@.skip(pos as int)) == Ok::<
                (Seq<u8>, int),
                ErrView,
            >((payload@, n as int)) && 1 <= n && pos + n <= data@.len(),
            Err(e) => spec_decode_simple(data@.skip(pos as int)) == Err::<(Seq<u8>, int), ErrView>(
                e@,
            ),
        },
{
    let ghost s = data@.skip(pos as int);
    if pos == data.len() {
        return Err(RespError::RespNotComplete);
    }
    proof {
        assert(s.skip(1) =~= data@.skip(pos + 1));
    }
    match find_crlf_from(data, pos + 1) {
        None => Err(RespError::RespNotComplete),
        Some(p) => {
            proof {
                crate::wire::lemma_find_crlf_found(data@.skip(pos + 1));
            }
            let payload = copy_range(data, pos + 1, p);
            proof {
                assert(payload@ =~= s.skip(1).take(p - pos - 1));
            }
            if is_clean(payload.as_slice()) {
                Ok((payload, p + 2 - pos))
            } else {
                Err(RespError::RespInvalid(msg::invalid_simple_text_bytes()))
            }
        },
    }
}

/// Decode an integer frame at `pos`.
fn decode_integer_at(data: &[u8], pos: usize) -> (r: Result<(i64, usize), RespError>)
    requires
        pos <= data@.len(),
    ensures
        match r {
            Ok((v, n)) => spec_decode_integer(data@.skip(pos as int)) == Ok::<(int, int), ErrView>(
                (v as int, n as int),
            ) && 1 <= n && pos + n <= data@.len(),
            Err(e) => spec_decode_integer(data@.skip(pos as int)) == Err::<(int, int), ErrView>(
                e@,
            ),
        },
{
    let ghost s = data@.skip(pos as int);
    if pos == data.len() {
        return Err(RespError::RespNotComplete);
    }
    proof {
        assert(s.skip(1) =~= data@.skip(pos + 1));
    }
    match find_crlf_from(data, pos + 1) {
        None => Err(RespError::RespNotComplete),
        Some(p) => {
            proof {
                crate::wire::lemma_find_crlf_found(data@.skip(pos + 1));
                assert(data@.subrange(pos + 1, p as int) =~= s.skip(1).take(p - pos - 1));
            }
            match parse_i64_range(data, pos + 1, p) {
                Some(v) => Ok((v, p + 2 - pos)),
                None => {
                    let payload = copy_range(data, pos + 1, p);
                    Err(
                        RespError::RespParseError {
                            typ: msg::i64_label_bytes(),
                            data: payload,
                        },
                    )
                },
            }
        },
    }
}

/// Decode the null frame at `pos`.
fn decode_null_at(data: &[u8], pos: usize) -> (r: Result<usize, RespError>)
    requires
        pos <= data@.len(),
    ensures
        match r {
            Ok(n) => spec_decode_null(data@.skip(pos as int)) == Ok::<(int, int), ErrView>(
                (0, n as int),
            ) && 1 <= n && pos + n <= data@.len(),
            Err(e) => spec_decode_null(data@.skip(pos as int)) == Err::<(int, int), ErrView>(e@),
        },
{
    let ghost s = data@.skip(pos as int);
    if pos == data.len() {
        return Err(RespError::RespNotComplete);
    }
    proof {
        assert(s.skip(1) =~= data@.skip(pos + 1));
    }
    match find_crlf_from(data, pos + 1) {
        None => Err(RespError::RespNotComplete),
        Some(p) => {
            proof {
                crate::wire::lemma_find_crlf_found(data@.skip(pos + 1));
            }
            if p == pos + 1 {
                Ok(3)
            } else {
                Err(RespError::RespInvalid(msg::invalid_null_bytes()))
            }
        },
    }
}

/// Decode a boolean frame at `pos`.
#[verifier::rlimit(60)]
fn decode_bool_at(data: &[u8], pos: usize) -> (r: Result<(bool, usize), RespError>)
    requires
        pos <= data@.len(),
    ensures
        match r {
            Ok((b, n)) => spec_decode_bool(data@.skip(pos as int)) == Ok::<(bool, int), ErrView>(
                (b, n as int),
            ) && 1 <= n && pos + n <= data@.len(),
            Err(e) => spec_decode_bool(data@.skip(pos as int)) == Err::<(bool, int), ErrView>(e@),
        },
{
    let ghost s = data@.skip(pos as int);
    if pos == data.len() {
        return Err(RespError::RespNotComplete);
    }
    proof {
        assert(s.skip(1) =~= data@.skip(pos + 1));
    }
    match find_crlf_from(data, pos + 1) {
        None => Err(RespError::RespNotComplete),
        Some(p) => {
            proof {
                crate::wire::lemma_find_crlf_found(data@.skip(pos + 1));
            }
            let ghost payload = s.skip(1).take(p - pos - 1);
            if p == pos + 2 && data[pos + 1] == 116 {
                proof {
                    assert(payload =~= seq![116u8]);
                    assert(spec_decode_bool(s) == Ok::<(bool, int), ErrView>((true, 4)));
                    assert(pos + 4 <= data@.len());
                }
                Ok((true, 4))
            } else if p == pos + 2 && data[pos + 1] == 102 {
                proof {
                    assert(payload =~= seq![102u8]);
                    assert(seq![116u8][0] == 116u8 && payload[0] == 102u8);
                    assert(payload != seq![116u8]);
                    assert(spec_decode_bool(s) == Ok::<(bool, int), ErrView>((false, 4)));
                    assert(pos + 4 <= data@.len());
                }
                Ok((false, 4))
            } else {
                proof {
                    assert(seq![116u8].len() == 1 && seq![102u8].len() == 1);
                    assert(payload.len() == p - pos - 1);
                    if p == pos + 2 {
                        assert(payload[0] == data@[pos + 1]);
                        assert(seq![116u8][0] == 116u8 && seq![102u8][0] == 102u8);
                    }
                    assert(payload != seq![116u8] && payload != seq![102u8]);
                }
                Err(RespError::RespInvalid(msg::invalid_bool_bytes()))
            }
        },
    }
}

/// Decode a double frame at `pos`; the payload keeps its written form.
fn decode_double_at(data: &[u8], pos: usize) -> (r: Result<(Vec<u8>, usize), RespError>)
    requires
        pos <= data@.len(),
    ensures
        match r {
            Ok((payload, n)) => spec_decode_double(data@.skip(pos as int)) == Ok::<
                (Seq<u8>, int),
                ErrView,
            >((payload@, n as int)) && 1 <= n && pos + n <= data@.len(),
            Err(e) => spec_decode_double(data@.skip(pos as int)) == Err::<(Seq<u8>, int), ErrView>(
                e@,
            ),
        },
{
    let ghost s = data@.skip(pos as int);
    if pos == data.len() {
        return Err(RespError::RespNotComplete);
    }
    proof {
        assert(s.skip(1) =~= data@.skip(pos + 1));
    }
    match find_crlf_from(data, pos + 1) {
        None => Err(RespError::RespNotComplete),
        Some(p) => {
            proof {
                crate::wire::lemma_find_crlf_found(data@.skip(pos + 1));
                assert(data@.subrange(pos + 1, p as int) =~= s.skip(1).take(p - pos - 1));
            }
            let payload = copy_range(data, pos + 1, p);
            if check_double(data, pos + 1, p) {
                Ok((payload, p + 2 - pos))
            } else {
                Err(
                    RespError::RespParseError {
                        typ: msg::double_label_bytes(),
                        data: payload,
                    },
                )
            }
        },
    }
}

/// Decode a bulk string frame at `pos`.
fn decode_bulk_at(data: &[u8], pos: usize) -> (r: Result<(Option<Vec<u8>>, usize), RespError>)
    requires
        pos <= data@.len(),
    ensures
        match r {
            Ok((payload, n)) => spec_decode_bulk(data@.skip(pos as int)) == Ok::<
                (Option<Seq<u8>>, int),
                ErrView,
            >((
                match payload {
                    Some(b) => Some(b@),
                    None => None,
                },
                n as int,
            )) && 1 <= n && pos + n <= data@.len(),
            Err(e) => spec_decode_bulk(data@.skip(pos as int)) == Err::<
                (Option<Seq<u8>>, int),
                ErrView,
            >(e@),
        },
{
    let ghost s = data@.skip(pos as int);
    if pos == data.len() {
        return Err(RespError::RespNotComplete);
    }
    proof {
        assert(s.skip(1) =~= data@.skip(pos + 1));
    }
    match find_crlf_from(data, pos + 1) {
        None => Err(RespError::RespNotComplete),
        Some(p) => {
            proof {
                crate::wire::lemma_find_crlf_found(data@.skip(pos + 1));
                assert(data@.subrange(pos + 1, p as int) =~= s.skip(1).take(p - pos - 1));
            }
            let len = match parse_i64_range(data, pos + 1, p) {
                None => {
                    return Err(RespError::RespInvalid(msg::invalid_length_bytes()));
                },
                Some(v) => v,
            };
            if len == -1 {
                return Ok((None, p + 2 - pos));
            }
            if len < 0 {
                return Err(RespError::RespInvalid(msg::invalid_length_bytes()));
            }
            let ghost header = p + 2 - pos;
            proof {
                assert(tail_from(s, header as int) =~= data@.skip(p + 2));
            }
            match find_crlf_from(data, p + 2) {
                None => Err(RespError::RespNotComplete),
                Some(q) => {
                    proof {
                        crate::wire::lemma_find_crlf_found(data@.skip(p + 2));
                        assert(data@.subrange(p + 2, q as int) =~= data@.skip(p + 2).take(
                            q - p - 2,
                        ));
                    }
                    let decoded: usize = q - (p + 2);
                    if (decoded as u64) == (len as u64) {
                        let payload = copy_range(data, p + 2, q);
                        Ok((Some(payload), q + 2 - pos))
                    } else {
                        Err(
                            RespError::RespNotEqualLength {
                                expected: len as usize,
                                decoded,
                            },
                        )
                    }
                },
            }
        },
    }
}

/// Decode the frame at `pos`, yielding it and the count of bytes it
/// occupies.
#[verifier::loop_isolation(false)]
fn decode_at(data: &[u8], pos: usize) -> (r: Result<(RespFrame, usize), RespError>)
    requires
        pos <= data@.len(),
    ensures
        match r {
            Ok((f, n)) => spec_decode(data@.skip(pos as int)) == Ok::<(FrameView, int), ErrView>(
                (f@, n as int),
            ) && 1 <= n && pos + n <= data@.len(),
            Err(e) => spec_decode(data@.skip(pos as int)) == Err::<(FrameView, int), ErrView>(e@),
        },
    decreases data@.len() - pos, 1nat,
{
    let ghost s = data@.skip(pos as int);
    if pos == data.len() {
        return Err(RespError::RespNotComplete);
    }
    let b = data[pos];
    proof {
        assert(s[0] == data@[pos as int]);
    }
    if b == 43 {
        match decode_simple_at(data, pos) {
            Ok((payload, n)) => Ok((RespFrame::SimpleString(SimpleString(payload)), n)),
            Err(e) => Err(e),
        }
    } else if b == 45 {
        match decode_simple_at(data, pos) {
            Ok((payload, n)) => Ok((RespFrame::Error(SimpleError(payload)), n)),
            Err(e) => Err(e),
        }
    } else if b == 58 {
        match decode_integer_at(data, pos) {
            Ok((v, n)) => Ok((RespFrame::Integer(v), n)),
            Err(e) => Err(e),
        }
    } else if b == 36 {
        match decode_bulk_at(data, pos) {
            Ok((payload, n)) => Ok((RespFrame::BulkString(BulkString(payload)), n)),
            Err(e) => Err(e),
        }
    } else if b == 42 {
        match decode_array_at(data, pos) {
            Ok((a, n)) => Ok((RespFrame::Array(a), n)),
            Err(e) => Err(e),
        }
    } else if b == 95 {
        match decode_null_at(data, pos) {
            Ok(n) => Ok((RespFrame::Null(RespNull), n)),
            Err(e) => Err(e),
        }
    } else if b == 35 {
        match decode_bool_at(data, pos) {
            Ok((v, n)) => Ok((RespFrame::Boolean(v), n)),
            Err(e) => Err(e),
        }
    } else if b == 44 {
        match decode_double_at(data, pos) {
            Ok((payload, n)) => Ok((RespFrame::Double(payload), n)),
            Err(e) => Err(e),
        }
    } else if b == 37 {
        match decode_map_at(data, pos) {
            Ok((m, n)) => Ok((RespFrame::MapData(m), n)),
            Err(e) => Err(e),
        }
    } else if b == 126 {
        match decode_set_at(data, pos) {
            Ok((st, n)) => Ok((RespFrame::SetData(st), n)),
            Err(e) => Err(e),
        }
    } else {
        let mut m = msg::unsupported_prefix_bytes();
        m.push(b);
        proof {
            assert(m@ == msg::unsupported_prefix_text().push(s[0]));
        }
        Err(RespError::RespInvalid(m))
    }
}

/// Decode an array frame at `pos`.
#[verifier::rlimit(100)]
#[verifier::spinoff_prover]
#[verifier::loop_isolation(false)]
fn decode_array_at(data: &[u8], pos: usize) -> (r: Result<(RespArray, usize), RespError>)
    requires
        pos <= data@.len(),
    ensures
        match r {
            Ok((a, n)) => spec_decode_array(data@.skip(pos as int)) == Ok::<
                (Option<Seq<FrameView>>, int),
                ErrView,
            >((a@, n as int)) && 1 <= n && pos + n <= data@.len(),
            Err(e) => spec_decode_array(data@.skip(pos as int)) == Err::<
                (Option<Seq<FrameView>>, int),
                ErrView,
            >(e@),
        },
    decreases data@.len() - pos, 0nat,
{
    let ghost s = data@.skip(pos as int);
    if pos == data.len() {
        return Err(RespError::RespNotComplete);
    }
    proof {
        assert(s.skip(1) =~= data@.skip(pos + 1));
    }
    match find_crlf_from(data, pos + 1) {
        None => Err(RespError::RespNotComplete),
        Some(p) => {
            proof {
                crate::wire::lemma_find_crlf_found(data@.skip(pos + 1));
                assert(data@.subrange(pos + 1, p as int) =~= s.skip(1).take(p - pos - 1));
            }
            let len = match parse_i64_range(data, pos + 1, p) {
                None => {
                    return Err(RespError::RespInvalid(msg::invalid_length_bytes()));
                },
                Some(v) => v,
            };
            if len == -1 {
                return Ok((RespArray(None), p + 2 - pos));
            }
            if len < 0 {
                return Err(RespError::RespInvalid(msg::invalid_length_bytes()));
            }
            let start: usize = p + 2;
            let ghost rest0 = data@.skip(start as int);
            proof {
                assert(tail_from(s, start - pos) =~= rest0);
            }
            let lenu: u64 = len as u64;
            let mut items: Vec<RespFrame> = Vec::new();
            let mut used: usize = 0;
            let mut k: u64 = 0;
            proof {
                assert(frames_view(items@) == Seq::<FrameView>::empty());
            }
            while k < lenu
                invariant
                    k <= lenu,
                    start + used <= data@.len(),
                    (match decode_children(data@.skip(start + used), (lenu - k) as nat, true) {
                        Ok(res) => decode_children(rest0, lenu as nat, true) == Ok::<
                            (Seq<FrameView>, int),
                            ErrView,
                        >((frames_view(items@) + res.0, used + res.1)),
                        Err(e) => decode_children(rest0, lenu as nat, true) == Err::<
                            (Seq<FrameView>, int),
                            ErrView,
                        >(e),
                    }),
                decreases lenu - k,
            {
                let ghost cur = data@.skip(start + used);
                let ghost rem = (lenu - k) as nat;
                match decode_at(data, start + used) {
                    Err(e) => {
                        proof {
                            assert(decode_children(cur, rem, true) == Err::<
                                (Seq<FrameView>, int),
                                ErrView,
                            >(wrap_in_container(e@)));
                        }
                        return Err(e.map_not_complete());
                    },
                    Ok((f, n)) => {
                        let ghost fv = f@;
                        let ghost old_items = items@;
                        proof {
                            lemma_frames_view_push(items@, f);
                            assert(tail_from(cur, n as int) =~= data@.skip(start + used + n));
                        }
                        items.push(f);
                        used = used + n;
                        k = k + 1;
                        proof {
                            let cur2 = data@.skip(start + used);
                            assert(cur2 == tail_from(cur, n as int));
                            match decode_children(cur2, (lenu - k) as nat, true) {
                                Ok(res2) => {
                                    assert(decode_children(cur, rem, true) == Ok::<
                                        (Seq<FrameView>, int),
                                        ErrView,
                                    >((seq![fv] + res2.0, n + res2.1)));
                                    assert(frames_view(old_items) + (seq![fv] + res2.0)
                                        =~= frames_view(items@) + res2.0);
                                },
                                Err(e2) => {
                                    assert(decode_children(cur, rem, true) == Err::<
                                        (Seq<FrameView>, int),
                                        ErrView,
                                    >(e2));
                                },
                            }
                        }
                    },
                }
            }
            proof {
                let cur = data@.skip(start + used);
                assert(decode_children(cur, 0nat, true) == Ok::<(Seq<FrameView>, int), ErrView>(
                    (Seq::empty(), 0),
                ));
                assert(frames_view(items@) + Seq::<FrameView>::empty() =~= frames_view(items@));
            }
            Ok((RespArray(Some(items)), (start - pos) + used))
        },
    }
}

/// Decode a map frame at `pos`.
#[verifier::rlimit(100)]
#[verifier::spinoff_prover]
#[verifier::loop_isolation(false)]
fn decode_map_at(data: &[u8], pos: usize) -> (r: Result<(RespMap, usize), RespError>)
    requires
        pos <= data@.len(),
    ensures
        match r {
            Ok((m, n)) => spec_decode_map(data@.skip(pos as int)) == Ok::<
                (Seq<(Seq<u8>, FrameView)>, int),
                ErrView,
            >((m@, n as int)) && 1 <= n && pos + n <= data@.len(),
            Err(e) => spec_decode_map(data@.skip(pos as int)) == Err::<
                (Seq<(Seq<u8>, FrameView)>, int),
                ErrView,
            >(e@),
        },
    decreases data@.len() - pos, 0nat,
{
    let ghost s = data@.skip(pos as int);
    if pos == data.len() {
        return Err(RespError::RespNotComplete);
    }
    proof {
        assert(s.skip(1) =~= data@.skip(pos + 1));
    }
    match find_crlf_from(data, pos + 1) {
        None => Err(RespError::RespNotComplete),
        Some(p) => {
            proof {
                crate::wire::lemma_find_crlf_found(data@.skip(pos + 1));
                assert(data@.subrange(pos + 1, p as int) =~= s.skip(1).take(p - pos - 1));
            }
            let len = match parse_i64_range(data, pos + 1, p) {
                None => {
                    return Err(RespError::RespInvalid(msg::invalid_length_bytes()));
                },
                Some(v) => v,
            };
            if len < 0 {
                return Err(RespError::RespInvalid(msg::invalid_length_bytes()));
            }
            let start: usize = p + 2;
            let ghost rest0 = data@.skip(start as int);
            proof {
                assert(tail_from(s, start - pos) =~= rest0);
            }
            let lenu: u64 = len as u64;
            let mut m = RespMap::new();
            let mut used: usize = 0;
            let mut k: u64 = 0;
            while k < lenu
                invariant
                    k <= lenu,
                    start + used <= data@.len(),
                    (match decode_entries(data@.skip(start + used), (lenu - k) as nat, m@) {
                        Ok(res) => decode_entries(rest0, lenu as nat, Seq::empty()) == Ok::<
                            (Seq<(Seq<u8>, FrameView)>, int),
                            ErrView,
                        >((res.0, used + res.1)),
                        Err(e) => decode_entries(rest0, lenu as nat, Seq::empty()) == Err::<
                            (Seq<(Seq<u8>, FrameView)>, int),
                            ErrView,
                        >(e),
                    }),
                decreases lenu - k,
            {
                let ghost cur = data@.skip(start + used);
                let ghost rem = (lenu - k) as nat;
                let ghost acc = m@;
                let key_frame = match decode_at(data, start + used) {
                    Err(e) => {
                        proof {
                            assert(decode_entries(cur, rem, acc) == Err::<
                                (Seq<(Seq<u8>, FrameView)>, int),
                                ErrView,
                            >(wrap_in_container(e@)));
                        }
                        return Err(e.map_not_complete());
                    },
                    Ok(kf) => kf,
                };
                let (kframe, n1) = key_frame;
                let ghost kv = kframe@;
                proof {
                    assert(tail_from(cur, n1 as int) =~= data@.skip(start + used + n1));
                }
                let value_frame = match decode_at(data, start + used + n1) {
                    Err(e) => {
                        proof {
                            assert(decode_entries(cur, rem, acc) == Err::<
                                (Seq<(Seq<u8>, FrameView)>, int),
                                ErrView,
                            >(wrap_in_container(e@)));
                        }
                        return Err(e.map_not_complete());
                    },
                    Ok(vf) => vf,
                };
                let (vframe, n2) = value_frame;
                let ghost vv = vframe@;
                match kframe {
                    RespFrame::SimpleString(keybytes) => {
                        m.insert(keybytes.0, vframe);
                        proof {
                            assert(tail_from(cur, n1 + n2) =~= data@.skip(start + used + n1 + n2));
                        }
                        used = used + n1 + n2;
                        k = k + 1;
                        proof {
                            let cur2 = data@.skip(start + used);
                            assert(cur2 == tail_from(cur, n1 + n2));
                            match decode_entries(cur2, (lenu - k) as nat, m@) {
                                Ok(res2) => {
                                    assert(decode_entries(cur, rem, acc) == Ok::<
                                        (Seq<(Seq<u8>, FrameView)>, int),
                                        ErrView,
                                    >((res2.0, n1 + n2 + res2.1)));
                                },
                                Err(e2) => {
                                    assert(decode_entries(cur, rem, acc) == Err::<
                                        (Seq<(Seq<u8>, FrameView)>, int),
                                        ErrView,
                                    >(e2));
                                },
                            }
                        }
                    },
                    _ => {
                        proof {
                            assert(decode_entries(cur, rem, acc) == Err::<
                                (Seq<(Seq<u8>, FrameView)>, int),
                                ErrView,
                            >(ErrView::Invalid(msg::map_key_kind_text())));
                        }
                        return Err(RespError::RespInvalid(msg::map_key_kind_bytes()));
                    },
                }
            }
            proof {
                let cur = data@.skip(start + used);
                assert(decode_entries(cur, 0nat, m@) == Ok::<
                    (Seq<(Seq<u8>, FrameView)>, int),
                    ErrView,
                >((m@, 0)));
            }
            Ok((m, (start - pos) + used))
        },
    }
}

/// Decode a set frame at `pos`.
#[verifier::rlimit(100)]
#[verifier::spinoff_prover]
#[verifier::loop_isolation(false)]
fn decode_set_at(data: &[u8], pos: usize) -> (r: Result<(RespSet, usize), RespError>)
    requires
        pos <= data@.len(),
    ensures
        match r {
            Ok((st, n)) => spec_decode_set(data@.skip(pos as int)) == Ok::<
                (Seq<FrameView>, int),
                ErrView,
            >((st@, n as int)) && 1 <= n && pos + n <= data@.len(),
            Err(e) => spec_decode_set(data@.skip(pos as int)) == Err::<
                (Seq<FrameView>, int),
                ErrView,
            >(e@),
        },
    decreases data@.len() - pos, 0nat,
{
    let ghost s = data@.skip(pos as int);
    if pos == data.len() {
        return Err(RespError::RespNotComplete);
    }
    proof {
        assert(s.skip(1) =~= data@.skip(pos + 1));
    }
    match find_crlf_from(data, pos + 1) {
        None => Err(RespError::RespNotComplete),
        Some(p) => {
            proof {
                crate::wire::lemma_find_crlf_found(data@.skip(pos + 1));
                assert(data@.subrange(pos + 1, p as int) =~= s.skip(1).take(p - pos - 1));
            }
            let len = match parse_i64_range(data, pos + 1, p) {
                None => {
                    return Err(RespError::RespInvalid(msg::invalid_length_bytes()));
                },
                Some(v) => v,
            };
            if len < 0 {
                return Err(RespError::RespInvalid(msg::invalid_length_bytes()));
            }
            let start: usize = p + 2;
            let ghost rest0 = data@.skip(start as int);
            proof {
                assert(tail_from(s, start - pos) =~= rest0);
            }
            let lenu: u64 = len as u64;
            let mut items: Vec<RespFrame> = Vec::new();
            let mut used: usize = 0;
            let mut k: u64 = 0;
            proof {
                assert(frames_view(items@) == Seq::<FrameView>::empty());
            }
            while k < lenu
                invariant
                    k <= lenu,
                    start + used <= data@.len(),
                    (match decode_children(data@.skip(start + used), (lenu - k) as nat, false) {
                        Ok(res) => decode_children(rest0, lenu as nat, false) == Ok::<
                            (Seq<FrameView>, int),
                            ErrView,
                        >((frames_view(items@) + res.0, used + res.1)),
                        Err(e) => decode_children(rest0, lenu as nat, false) == Err::<
                            (Seq<FrameView>, int),
                            ErrView,
                        >(e),
                    }),
                decreases lenu - k,
            {
                let ghost cur = data@.skip(start + used);
                let ghost rem = (lenu - k) as nat;
                match decode_at(data, start + used) {
                    Err(e) => {
                        proof {
                            assert(decode_children(cur, rem, false) == Err::<
                                (Seq<FrameView>, int),
                                ErrView,
                            >(e@));
                        }
                        return Err(e);
                    },
                    Ok((f, n)) => {
                        let ghost fv = f@;
                        let ghost old_items = items@;
                        proof {
                            lemma_frames_view_push(items@, f);
                            assert(tail_from(cur, n as int) =~= data@.skip(start + used + n));
                        }
                        items.push(f);
                        used = used + n;
                        k = k + 1;
                        proof {
                            let cur2 = data@.skip(start + used);
                            assert(cur2 == tail_from(cur, n as int));
                            match decode_children(cur2, (lenu - k) as nat, false) {
                                Ok(res2) => {
                                    assert(decode_children(cur, rem, false) == Ok::<
                                        (Seq<FrameView>, int),
                                        ErrView,
                                    >((seq![fv] + res2.0, n + res2.1)));
                                    assert(frames_view(old_items) + (seq![fv] + res2.0)
                                        =~= frames_view(items@) + res2.0);
                                },
                                Err(e2) => {
                                    assert(decode_children(cur, rem, false) == Err::<
                                        (Seq<FrameView>, int),
                                        ErrView,
                                    >(e2));
                                },
                            }
                        }
                    },
                }
            }
            proof {
                let cur = data@.skip(start + used);
                assert(decode_children(cur, 0nat, false) == Ok::<(Seq<FrameView>, int), ErrView>(
                    (Seq::empty(), 0),
                ));
                assert(frames_view(items@) + Seq::<FrameView>::empty() =~= frames_view(items@));
                assert(Seq::<FrameView>::empty() + frames_view(items@) =~= frames_view(items@));
            }
            Ok((RespSet(items), (start - pos) + used))
        },
    }
}

impl RespFrame {
    /// Decode the frame at the head of `data`, with the count of bytes
    /// it occupies; see `spec_decode` for the whole contract.
    pub fn decode(data: &[u8]) -> (r: Result<(RespFrame, usize), RespError>)
        ensures
            match r {
                Ok((f, n)) => spec_decode(data@) == Ok::<(FrameView, int), ErrView>(
                    (f@, n as int),
                ) && 1 <= n <= data@.len(),
                Err(e) => spec_decode(data@) == Err::<(FrameView, int), ErrView>(e@),
            },
    {
        proof {
            assert(data@.skip(0) =~= data@);
        }
        decode_at(data, 0)
    }
}

impl SimpleString {
    pub fn decode(data: &[u8]) -> (r: Result<(SimpleString, usize), RespError>)
        ensures
            match r {
                Ok((v, n)) => spec_decode_simple(data@) == Ok::<(Seq<u8>, int), ErrView>(
                    (v@, n as int),
                ) && 1 <= n <= data@.len(),
                Err(e) => spec_decode_simple(data@) == Err::<(Seq<u8>, int), ErrView>(e@),
            },
    {
        proof {
            assert(data@.skip(0) =~= data@);
        }
        match decode_simple_at(data, 0) {
            Ok((payload, n)) => Ok((SimpleString(payload), n)),
            Err(e) => Err(e),
        }
    }
}

impl SimpleError {
    pub fn decode(data: &[u8]) -> (r: Result<(SimpleError, usize), RespError>)
        ensures
            match r {
                Ok((v, n)) => spec_decode_simple(data@) == Ok::<(Seq<u8>, int), ErrView>(
                    (v@, n as int),
                ) && 1 <= n <= data@.len(),
                Err(e) => spec_decode_simple(data@) == Err::<(Seq<u8>, int), ErrView>(e@),
            },
    {
        proof {
            assert(data@.skip(0) =~= data@);
        }
        match decode_simple_at(data, 0) {
            Ok((payload, n)) => Ok((SimpleError(payload), n)),
            Err(e) => Err(e),
        }
    }
}

impl BulkString {
    pub fn decode(data: &[u8]) -> (r: Result<(BulkString, usize), RespError>)
        ensures
            match r {
                Ok((v, n)) => spec_decode_bulk(data@) == Ok::<(Option<Seq<u8>>, int), ErrView>(
                    (v@, n as int),
                ) && 1 <= n <= data@.len(),
                Err(e) => spec_decode_bulk(data@) == Err::<(Option<Seq<u8>>, int), ErrView>(e@),
            },
    {
        proof {
            assert(data@.skip(0) =~= data@);
        }
        match decode_bulk_at(data, 0) {
            Ok((payload, n)) => Ok((BulkString(payload), n)),
            Err(e) => Err(e),
        }
    }
}

impl RespNull {
    pub fn decode(data: &[u8]) -> (r: Result<(RespNull, usize), RespError>)
        ensures
            match r {
                Ok((_, n)) => spec_decode_null(data@) == Ok::<(int, int), ErrView>((0, n as int))
                    && 1 <= n <= data@.len(),
                Err(e) => spec_decode_null(data@) == Err::<(int, int), ErrView>(e@),
            },
    {
        proof {
            assert(data@.skip(0) =~= data@);
        }
        match decode_null_at(data, 0) {
            Ok(n) => Ok((RespNull, n)),
            Err(e) => Err(e),
        }
    }
}

impl RespArray {
    pub fn decode(data: &[u8]) -> (r: Result<(RespArray, usize), RespError>)
        ensures
            match r {
                Ok((v, n)) => spec_decode_array(data@) == Ok::<
                    (Option<Seq<FrameView>>, int),
                    ErrView,
                >((v@, n as int)) && 1 <= n <= data@.len(),
                Err(e) => spec_decode_array(data@) == Err::<(Option<Seq<FrameView>>, int), ErrView>(
                    e@,
                ),
            },
    {
        proof {
            assert(data@.skip(0) =~= data@);
        }
        decode_array_at(data, 0)
    }
}

impl RespMap {
    pub fn decode(data: &[u8]) -> (r: Result<(RespMap, usize), RespError>)
        ensures
            match r {
                Ok((v, n)) => spec_decode_map(data@) == Ok::<
                    (Seq<(Seq<u8>, FrameView)>, int),
                    ErrView,
                >((v@, n as int)) && 1 <= n <= data@.len(),
                Err(e) => spec_decode_map(data@) == Err::<
                    (Seq<(Seq<u8>, FrameView)>, int),
                    ErrView,
                >(e@),
            },
    {
        proof {
            assert(data@.skip(0) =~= data@);
        }
        decode_map_at(data, 0)
    }
}

impl RespSet {
    pub fn decode(data: &[u8]) -> (r: Result<(RespSet, usize), RespError>)
        ensures
            match r {
                Ok((v, n)) => spec_decode_set(data@) == Ok::<(Seq<FrameView>, int), ErrView>(
                    (v@, n as int),
                ) && 1 <= n <= data@.len(),
                Err(e) => spec_decode_set(data@) == Err::<(Seq<FrameView>, int), ErrView>(e@),
            },
    {
        proof {
            assert(data@.skip(0) =~= data@);
        }
        decode_set_at(data, 0)
    }
}

} // verus!
