//! The frame model: the tagged union of wire frames, its mathematical
//! view, the well-formedness the encoder promises, and the error taxonomy
//! of the decoder.
use vstd::prelude::*;
use crate::order::{lex_lt, lex_cmp, lemma_lex_trichotomy};
use crate::text::{is_utf8, is_double_repr};
use crate::wire::{clean_text, no_crlf};
use crate::msg::array_label_text;

verus! {

/// The mathematical value of a frame.
pub enum FrameView {
    SimpleString(Seq<u8>),
    Error(Seq<u8>),
    Integer(int),
    BulkString(Option<Seq<u8>>),
    Array(Option<Seq<FrameView>>),
    Null,
    Boolean(bool),
    Double(Seq<u8>),
    MapData(Seq<(Seq<u8>, FrameView)>),
    SetData(Seq<FrameView>),
}

/// A short human-readable string; holds no CR or LF when well formed.
#[derive(Debug, Clone, PartialEq)]
pub struct SimpleString(pub Vec<u8>);

/// A short error message; holds no CR or LF when well formed.
#[derive(Debug, Clone, PartialEq)]
pub struct SimpleError(pub Vec<u8>);

/// Length-prefixed opaque bytes; `None` is the null bulk string.
#[derive(Debug, Clone, PartialEq)]
pub struct BulkString(pub Option<Vec<u8>>);

/// An ordered sequence of frames; `None` is the null array.
#[derive(Debug, PartialEq)]
pub struct RespArray(pub Option<Vec<RespFrame>>);

/// The explicit null singleton.
#[derive(Debug, Clone, PartialEq)]
pub struct RespNull;

/// Key-sorted pairs of simple-string keys and frame values.
#[derive(Debug, PartialEq)]
pub struct RespMap(pub Vec<(Vec<u8>, RespFrame)>);

/// An order-preserving collection of frames; the producer de-duplicates.
#[derive(Debug, PartialEq)]
pub struct RespSet(pub Vec<RespFrame>);

/// A wire frame. The double is held as its written form, so that a frame
/// is a plain value and re-encoding gives back the same bytes.
#[derive(Debug, PartialEq)]
pub enum RespFrame {
    SimpleString(SimpleString),
    Error(SimpleError),
    Integer(i64),
    BulkString(BulkString),
    Array(RespArray),
    Null(RespNull),
    Boolean(bool),
    Double(Vec<u8>),
    MapData(RespMap),
    SetData(RespSet),
}

/// The views of a sequence of frames, in order.
pub open spec fn frames_view(s: Seq<RespFrame>) -> Seq<FrameView>
    decreases s,
{
    if s.len() == 0 {
        Seq::empty()
    } else {
        seq![frame_view(s[0])] + frames_view(s.skip(1))
    }
}

/// The views of a sequence of map entries, in order.
pub open spec fn pairs_view(s: Seq<(Vec<u8>, RespFrame)>) -> Seq<(Seq<u8>, FrameView)>
    decreases s,
{
    if s.len() == 0 {
        Seq::empty()
    } else {
        seq![(s[0].0@, frame_view(s[0].1))] + pairs_view(s.skip(1))
    }
}

/// The mathematical value of a frame.
pub open spec fn frame_view(f: RespFrame) -> FrameView
    decreases f,
{
    match f {
        RespFrame::SimpleString(s) => FrameView::SimpleString(s.0@),
        RespFrame::Error(e) => FrameView::Error(e.0@),
        RespFrame::Integer(i) => FrameView::Integer(i as int),
        RespFrame::BulkString(b) => FrameView::BulkString(
            match b.0 {
                Some(v) => Some(v@),
                None => None,
            },
        ),
        RespFrame::Array(a) => FrameView::Array(
            match a.0 {
                Some(v) => Some(frames_view(v@)),
                None => None,
            },
        ),
        RespFrame::Null(_) => FrameView::Null,
        RespFrame::Boolean(b) => FrameView::Boolean(b),
        RespFrame::Double(d) => FrameView::Double(d@),
        RespFrame::MapData(m) => FrameView::MapData(pairs_view(m.0@)),
        RespFrame::SetData(s) => FrameView::SetData(frames_view(s.0@)),
    }
}

impl View for RespFrame {
    type V = FrameView;

    open spec fn view(&self) -> FrameView {
        frame_view(*self)
    }
}

impl View for SimpleString {
    type V = Seq<u8>;

    open spec fn view(&self) -> Seq<u8> {
        self.0@
    }
}

impl View for SimpleError {
    type V = Seq<u8>;

    open spec fn view(&self) -> Seq<u8> {
        self.0@
    }
}

impl View for BulkString {
    type V = Option<Seq<u8>>;

    open spec fn view(&self) -> Option<Seq<u8>> {
        match self.0 {
            Some(v) => Some(v@),
            None => None,
        }
    }
}

impl View for RespArray {
    type V = Option<Seq<FrameView>>;

    open spec fn view(&self) -> Option<Seq<FrameView>> {
        match self.0 {
            Some(v) => Some(frames_view(v@)),
            None => None,
        }
    }
}

impl View for RespMap {
    type V = Seq<(Seq<u8>, FrameView)>;

    open spec fn view(&self) -> Seq<(Seq<u8>, FrameView)> {
        pairs_view(self.0@)
    }
}

impl View for RespSet {
    type V = Seq<FrameView>;

    open spec fn view(&self) -> Seq<FrameView> {
        frames_view(self.0@)
    }
}

pub proof fn lemma_frames_view_len(s: Seq<RespFrame>)
    ensures
        frames_view(s).len() == s.len(),
        forall|i: int| 0 <= i < s.len() ==> #[trigger] frames_view(s)[i] == frame_view(s[i]),
    decreases s,
{
    if s.len() > 0 {
        lemma_frames_view_len(s.skip(1));
        assert forall|i: int| 0 <= i < s.len() implies #[trigger] frames_view(s)[i] == frame_view(
            s[i],
        ) by {
            if i > 0 {
                assert(frames_view(s.skip(1))[i - 1] == frame_view(s.skip(1)[i - 1]));
                assert(s.skip(1)[i - 1] == s[i]);
            }
        }
    }
}

pub proof fn lemma_pairs_view_len(s: Seq<(Vec<u8>, RespFrame)>)
    ensures
        pairs_view(s).len() == s.len(),
        forall|i: int| 0 <= i < s.len() ==> #[trigger] pairs_view(s)[i] == (
        s[i].0@,
        frame_view(s[i].1),
        ),
    decreases s,
{
    if s.len() > 0 {
        lemma_pairs_view_len(s.skip(1));
        assert forall|i: int| 0 <= i < s.len() implies #[trigger] pairs_view(s)[i] == (
        s[i].0@,
        frame_view(s[i].1),
        ) by {
            if i > 0 {
                assert(pairs_view(s.skip(1))[i - 1] == (s.skip(1)[i - 1].0@, frame_view(
                    s.skip(1)[i - 1].1,
                )));
                assert(s.skip(1)[i - 1] == s[i]);
            }
        }
    }
}

pub proof fn lemma_frames_view_push(s: Seq<RespFrame>, f: RespFrame)
    ensures
        frames_view(s.push(f)) == frames_view(s).push(frame_view(f)),
    decreases s,
{
    if s.len() == 0 {
        assert(s.push(f)[0] == f);
        assert(s.push(f).skip(1) =~= Seq::<RespFrame>::empty());
        assert(frames_view(Seq::<RespFrame>::empty()) == Seq::<FrameView>::empty());
        assert(frames_view(s) == Seq::<FrameView>::empty());
        assert(frames_view(s.push(f)) =~= frames_view(s).push(frame_view(f)));
    } else {
        assert(s.push(f)[0] == s[0]);
        assert(s.push(f).skip(1) =~= s.skip(1).push(f));
        lemma_frames_view_push(s.skip(1), f);
        assert(frames_view(s.push(f)) == seq![frame_view(s[0])] + frames_view(s.skip(1)).push(
            frame_view(f),
        ));
        assert(seq![frame_view(s[0])] + frames_view(s.skip(1)).push(frame_view(f)) =~= (
        seq![frame_view(s[0])] + frames_view(s.skip(1))).push(frame_view(f)));
    }
}

pub proof fn lemma_pairs_view_push(s: Seq<(Vec<u8>, RespFrame)>, p: (Vec<u8>, RespFrame))
    ensures
        pairs_view(s.push(p)) == pairs_view(s).push((p.0@, frame_view(p.1))),
    decreases s,
{
    if s.len() == 0 {
        assert(s.push(p)[0] == p);
        assert(s.push(p).skip(1) =~= Seq::<(Vec<u8>, RespFrame)>::empty());
        assert(pairs_view(Seq::<(Vec<u8>, RespFrame)>::empty()) == Seq::<(Seq<u8>, FrameView)>::empty());
        assert(pairs_view(s) == Seq::<(Seq<u8>, FrameView)>::empty());
        assert(pairs_view(s.push(p)) =~= pairs_view(s).push((p.0@, frame_view(p.1))));
    } else {
        assert(s.push(p)[0] == s[0]);
        assert(s.push(p).skip(1) =~= s.skip(1).push(p));
        lemma_pairs_view_push(s.skip(1), p);
        assert(pairs_view(s.push(p)) == seq![(s[0].0@, frame_view(s[0].1))] + pairs_view(
            s.skip(1),
        ).push((p.0@, frame_view(p.1))));
        assert(seq![(s[0].0@, frame_view(s[0].1))] + pairs_view(s.skip(1)).push(
            (p.0@, frame_view(p.1)),
        ) =~= (seq![(s[0].0@, frame_view(s[0].1))] + pairs_view(s.skip(1))).push(
            (p.0@, frame_view(p.1)),
        ));
    }
}

/// Map entries stand in strictly ascending key order, so keys are unique.
pub open spec fn entries_sorted(s: Seq<(Seq<u8>, FrameView)>) -> bool {
    forall|i: int, j: int| 0 <= i < j < s.len() ==> lex_lt(#[trigger] s[i].0, #[trigger] s[j].0)
}

pub open spec fn wf_seq(es: Seq<FrameView>) -> bool
    decreases es,
{
    if es.len() == 0 {
        true
    } else {
        wf_view(es[0]) && wf_seq(es.skip(1))
    }
}

pub open spec fn wf_pairs(ps: Seq<(Seq<u8>, FrameView)>) -> bool
    decreases ps,
{
    if ps.len() == 0 {
        true
    } else {
        clean_text(ps[0].0) && wf_view(ps[0].1) && wf_pairs(ps.skip(1))
    }
}

/// A well-formed frame: one whose wire form decodes back to it. Simple
/// strings and errors hold no CR or LF, a bulk payload holds no CRLF
/// pair, a double holds a readable number, map keys are clean and sorted,
/// and every length fits a signed 64-bit count.
pub open spec fn wf_view(v: FrameView) -> bool
    decreases v,
{
    match v {
        FrameView::SimpleString(s) => clean_text(s),
        FrameView::Error(s) => clean_text(s),
        FrameView::Integer(i) => i64::MIN <= i <= i64::MAX,
        FrameView::BulkString(p) => match p {
            Some(b) => no_crlf(b) && b.len() <= i64::MAX,
            None => true,
        },
        FrameView::Array(es) => match es {
            Some(es) => es.len() <= i64::MAX && wf_seq(es),
            None => true,
        },
        FrameView::Null => true,
        FrameView::Boolean(_) => true,
        FrameView::Double(d) => is_double_repr(d),
        FrameView::MapData(ps) => ps.len() <= i64::MAX && entries_sorted(ps) && wf_pairs(ps),
        FrameView::SetData(es) => es.len() <= i64::MAX && wf_seq(es),
    }
}

/// The decoder's outcomes, as values.
pub enum ErrView {
    NotComplete,
    Invalid(Seq<u8>),
    IsEmpty,
    NotEqualLength { expected: int, decoded: int },
    Parse { typ: Seq<u8>, data: Seq<u8> },
    Wrapped { typ: Seq<u8>, err: Box<ErrView> },
}

/// What decoding can report. Only `RespNotComplete` is transient; every
/// other outcome is fatal to the connection.
#[derive(Debug, PartialEq)]
pub enum RespError {
    RespNotComplete,
    RespInvalid(Vec<u8>),
    RespIsEmpty,
    RespNotEqualLength { expected: usize, decoded: usize },
    RespParseError { typ: Vec<u8>, data: Vec<u8> },
    RespWrappedError { typ: Vec<u8>, err: Box<RespError> },
}

pub open spec fn err_view(e: RespError) -> ErrView
    decreases e,
{
    match e {
        RespError::RespNotComplete => ErrView::NotComplete,
        RespError::RespInvalid(m) => ErrView::Invalid(m@),
        RespError::RespIsEmpty => ErrView::IsEmpty,
        RespError::RespNotEqualLength { expected, decoded } => ErrView::NotEqualLength {
            expected: expected as int,
            decoded: decoded as int,
        },
        RespError::RespParseError { typ, data } => ErrView::Parse { typ: typ@, data: data@ },
        RespError::RespWrappedError { typ, err } => ErrView::Wrapped {
            typ: typ@,
            err: Box::new(err_view(*err)),
        },
    }
}

impl View for RespError {
    type V = ErrView;

    open spec fn view(&self) -> ErrView {
        err_view(*self)
    }
}

/// How a container reports a child's failure: an empty buffer means the
/// frame is not yet complete; any other failure is kept, wrapped with the
/// container's label.
pub open spec fn wrap_in_container(v: ErrView) -> ErrView {
    match v {
        ErrView::NotComplete => ErrView::NotComplete,
        ErrView::IsEmpty => ErrView::NotComplete,
        _ => ErrView::Wrapped { typ: array_label_text(), err: Box::new(v) },
    }
}

impl RespError {
    /// Translate this error as a container does for its children.
    pub fn map_not_complete(self) -> (r: Self)
        ensures
            r@ == wrap_in_container(self@),
    {
        match self {
            RespError::RespNotComplete => RespError::RespNotComplete,
            RespError::RespIsEmpty => RespError::RespNotComplete,
            other => RespError::RespWrappedError {
                typ: crate::msg::array_label_bytes(),
                err: Box::new(other),
            },
        }
    }
}

/// Copy a byte vector.
pub fn copy_bytes(v: &Vec<u8>) -> (r: Vec<u8>)
    ensures
        r@ == v@,
{
    let mut out: Vec<u8> = Vec::new();
    let n = v.len();
    let mut i: usize = 0;
    while i < n
        invariant
            i <= n,
            n == v@.len(),
            out@ =~= v@.take(i as int),
        decreases n - i,
    {
        out.push(v[i]);
        proof {
            assert(out@ =~= v@.take(i + 1));
        }
        i = i + 1;
    }
    proof {
        assert(v@.take(n as int) =~= v@);
    }
    out
}

/// Append `add` to `out`.
pub fn append_to(out: &mut Vec<u8>, add: &[u8])
    ensures
        final (out)@ == old(out)@ + add@,
{
    let n = add.len();
    let mut i: usize = 0;
    while i < n
        invariant
            i <= n,
            n == add@.len(),
            out@ =~= old(out)@ + add@.take(i as int),
        decreases n - i,
    {
        out.push(add[i]);
        proof {
            assert(old(out)@ + add@.take(i as int) + seq![add@[i as int]] =~= old(out)@ + add@.take(
                i + 1,
            ));
        }
        i = i + 1;
    }
    proof {
        assert(add@.take(n as int) =~= add@);
    }
}

/// Whether two byte strings hold the same bytes.
pub fn bytes_eq(a: &[u8], b: &[u8]) -> (r: bool)
    ensures
        r == (a@ == b@),
{
    lex_cmp(a, b) == 0
}

impl SimpleString {
    pub fn new(s: Vec<u8>) -> (r: Self)
        ensures
            r@ == s@,
    {
        SimpleString(s)
    }
}

impl SimpleError {
    pub fn new(s: Vec<u8>) -> (r: Self)
        ensures
            r@ == s@,
    {
        SimpleError(s)
    }
}

impl BulkString {
    pub fn new(s: Vec<u8>) -> (r: Self)
        ensures
            r@ == Some(s@),
    {
        BulkString(Some(s))
    }

    pub fn new_null() -> (r: Self)
        ensures
            r@ == None::<Seq<u8>>,
    {
        BulkString(None)
    }
}

impl RespNull {
    pub fn new() -> (r: Self)
        ensures
            r == RespNull,
    {
        RespNull
    }
}

impl RespArray {
    pub fn new_null() -> (r: Self)
        ensures
            r@ == None::<Seq<FrameView>>,
    {
        RespArray(None)
    }

    pub fn new() -> (r: Self)
        ensures
            r@ == Some(Seq::<FrameView>::empty()),
    {
        RespArray(Some(Vec::new()))
    }

    pub fn with_vec(v: Vec<RespFrame>) -> (r: Self)
        ensures
            r@ == Some(frames_view(v@)),
    {
        RespArray(Some(v))
    }

    /// Append to the array; a null array takes nothing.
    pub fn try_push(&mut self, frame: RespFrame) -> (r: Result<(), RespError>)
        ensures
            match old(self)@ {
                Some(es) => r is Ok && final(self)@ == Some(es.push(frame_view(frame))),
                None => r is Err && final(self)@ == old(self)@ && r->Err_0@ == ErrView::Invalid(
                    crate::msg::push_null_array_text(),
                ),
            },
    {
        let opt = self.0.take();
        match opt {
            Some(mut v) => {
                proof {
                    lemma_frames_view_push(v@, frame);
                }
                v.push(frame);
                self.0 = Some(v);
                Ok(())
            },
            None => {
                self.0 = None;
                Err(RespError::RespInvalid(crate::msg::push_null_array_bytes()))
            },
        }
    }
}

impl RespSet {
    pub fn new() -> (r: Self)
        ensures
            r@ == Seq::<FrameView>::empty(),
    {
        RespSet(Vec::new())
    }

    pub fn with_vec(v: Vec<RespFrame>) -> (r: Self)
        ensures
            r@ == frames_view(v@),
    {
        RespSet(v)
    }

    pub fn push(&mut self, frame: RespFrame)
        ensures
            final(self)@ == old(self)@.push(frame_view(frame)),
    {
        proof {
            lemma_frames_view_push(self.0@, frame);
        }
        self.0.push(frame);
    }
}

/// Entries after inserting `(k, v)` in key order; an equal key is
/// replaced in place.
pub open spec fn map_insert(
    entries: Seq<(Seq<u8>, FrameView)>,
    k: Seq<u8>,
    v: FrameView,
) -> Seq<(Seq<u8>, FrameView)>
    decreases entries.len(),
{
    if entries.len() == 0 {
        seq![(k, v)]
    } else if lex_lt(k, entries[0].0) {
        seq![(k, v)] + entries
    } else if k == entries[0].0 {
        seq![(k, v)] + entries.skip(1)
    } else {
        seq![entries[0]] + map_insert(entries.skip(1), k, v)
    }
}

/// Entries after inserting each of `ps` in turn into `acc`.
pub open spec fn map_insert_all(
    acc: Seq<(Seq<u8>, FrameView)>,
    ps: Seq<(Seq<u8>, FrameView)>,
) -> Seq<(Seq<u8>, FrameView)>
    decreases ps.len(),
{
    if ps.len() == 0 {
        acc
    } else {
        map_insert_all(map_insert(acc, ps[0].0, ps[0].1), ps.skip(1))
    }
}

/// Where the scan stopped tells the whole story of `map_insert`.
pub proof fn lemma_map_insert_at(
    entries: Seq<(Seq<u8>, FrameView)>,
    k: Seq<u8>,
    v: FrameView,
    pos: int,
)
    requires
        0 <= pos <= entries.len(),
        forall|j: int| 0 <= j < pos ==> lex_lt(#[trigger] entries[j].0, k),
        pos < entries.len() ==> !lex_lt(entries[pos].0, k),
    ensures
        map_insert(entries, k, v) == (if pos < entries.len() && entries[pos].0 == k {
            entries.update(pos, (k, v))
        } else {
            entries.take(pos) + seq![(k, v)] + entries.skip(pos)
        }),
    decreases entries.len(),
{
    if pos == 0 {
        if entries.len() == 0 {
            assert(map_insert(entries, k, v) =~= entries.take(0) + seq![(k, v)] + entries.skip(0));
        } else {
            lemma_lex_trichotomy(k, entries[0].0);
            if entries[0].0 == k {
                assert(seq![(k, v)] + entries.skip(1) =~= entries.update(0, (k, v)));
            } else {
                assert(lex_lt(k, entries[0].0));
                assert(seq![(k, v)] + entries =~= entries.take(0) + seq![(k, v)] + entries.skip(
                    0,
                ));
            }
        }
    } else {
        assert(lex_lt(entries[0].0, k));
        lemma_lex_trichotomy(k, entries[0].0);
        let tail = entries.skip(1);
        assert forall|j: int| 0 <= j < pos - 1 implies lex_lt(#[trigger] tail[j].0, k) by {
            assert(tail[j] == entries[j + 1]);
        }
        assert(pos - 1 < tail.len() ==> !lex_lt(tail[pos - 1].0, k)) by {
            if pos - 1 < tail.len() {
                assert(tail[pos - 1] == entries[pos]);
            }
        }
        lemma_map_insert_at(tail, k, v, pos - 1);
        if pos < entries.len() && entries[pos].0 == k {
            assert(tail[pos - 1] == entries[pos]);
            assert(seq![entries[0]] + tail.update(pos - 1, (k, v)) =~= entries.update(pos, (k, v)));
        } else {
            assert(seq![entries[0]] + (tail.take(pos - 1) + seq![(k, v)] + tail.skip(pos - 1)) =~= entries.take(
                pos,
            ) + seq![(k, v)] + entries.skip(pos));
        }
    }
}

impl RespMap {
    pub fn new() -> (r: Self)
        ensures
            r@ == Seq::<(Seq<u8>, FrameView)>::empty(),
    {
        RespMap(Vec::new())
    }

    /// Put `value` under `key`, keeping the entries in key order; an
    /// entry with an equal key is replaced.
    pub fn insert(&mut self, key: Vec<u8>, value: RespFrame)
        ensures
            final(self)@ == map_insert(old(self)@, key@, frame_view(value)),
    {
        let ghost entries = pairs_view(self.0@);
        proof {
            lemma_pairs_view_len(self.0@);
        }
        let n = self.0.len();
        let mut pos: usize = 0;
        while pos < n && lex_cmp(self.0[pos].0.as_slice(), key.as_slice()) == -1
            invariant
                0 <= pos <= n,
                n == self.0@.len(),
                entries == pairs_view(self.0@),
                entries.len() == n,
                forall|j: int| 0 <= j < n ==> #[trigger] entries[j] == (
                self.0@[j].0@,
                frame_view(self.0@[j].1),
                ),
                forall|j: int| 0 <= j < pos ==> lex_lt(#[trigger] entries[j].0, key@),
            decreases n - pos,
    {
            pos = pos + 1;
        }
        proof {
            lemma_map_insert_at(entries, key@, frame_view(value), pos as int);
        }
        if pos < n && lex_cmp(self.0[pos].0.as_slice(), key.as_slice()) == 0 {
            self.0.set(pos, (key, value));
            proof {
                lemma_pairs_view_len(self.0@);
                assert(pairs_view(self.0@) =~= entries.update(
                    pos as int,
                    (key@, frame_view(value)),
                ));
            }
        } else {
            proof {
                if pos < n {
                    lemma_lex_trichotomy(self.0@[pos as int].0@, key@);
                }
            }
            self.0.insert(pos, (key, value));
            proof {
                lemma_pairs_view_len(self.0@);
                assert(pairs_view(self.0@) =~= entries.take(pos as int) + seq![
                    (key@, frame_view(value)),
                ] + entries.skip(pos as int));
            }
        }
    }

    /// A map holding the given pairs, inserted in order.
    pub fn with_vec(v: Vec<(Vec<u8>, RespFrame)>) -> (r: Self)
        ensures
            r@ == map_insert_all(Seq::<(Seq<u8>, FrameView)>::empty(), pairs_view(v@)),
    {
        let ghost ps = pairs_view(v@);
        let mut m = RespMap::new();
        let mut v = v;
        while v.len() > 0
            invariant
                map_insert_all(m@, pairs_view(v@)) == map_insert_all(
                    Seq::<(Seq<u8>, FrameView)>::empty(),
                    ps,
                ),
            decreases v.len(),
        {
            let ghost prev = v@;
            let ghost before = pairs_view(prev);
            let ghost macc = m@;
            proof {
                lemma_pairs_view_len(prev);
            }
            let p = v.remove(0);
            proof {
                assert(v@ =~= prev.skip(1));
                assert(before[0] == (prev[0].0@, frame_view(prev[0].1)));
                assert(before.skip(1) =~= pairs_view(prev.skip(1)));
            }
            m.insert(p.0, p.1);
            proof {
                assert(m@ == map_insert(macc, before[0].0, before[0].1));
                assert(map_insert_all(macc, before) == map_insert_all(m@, before.skip(1)));
            }
        }
        proof {
            assert(pairs_view(v@) =~= Seq::<(Seq<u8>, FrameView)>::empty());
        }
        m
    }
}

impl Default for RespArray {
    fn default() -> (r: Self)
        ensures
            r@ == Some(Seq::<FrameView>::empty()),
    {
        RespArray::new()
    }
}

impl Default for RespSet {
    fn default() -> (r: Self)
        ensures
            r@ == Seq::<FrameView>::empty(),
    {
        RespSet::new()
    }
}

impl Default for RespMap {
    fn default() -> (r: Self)
        ensures
            r@ == Seq::<(Seq<u8>, FrameView)>::empty(),
    {
        RespMap::new()
    }
}

/// The longest text that still becomes a simple string rather than a
/// bulk string.
pub const MAX_SIMPLE_STRING: usize = 128;

/// Why a frame gave no key text.
#[derive(Debug, Clone, Copy, PartialEq, Eq, Structural)]
pub enum StringifyError {
    NullBulkString,
    NotUtf8,
    NotSupported,
}

/// The key text a frame yields: the payload of a simple string or of a
/// non-null bulk string, provided it is well-formed UTF-8.
pub open spec fn try_string_view(v: FrameView) -> Result<Seq<u8>, StringifyError> {
    match v {
        FrameView::SimpleString(s) => if is_utf8(s) {
            Ok(s)
        } else {
            Err(StringifyError::NotUtf8)
        },
        FrameView::BulkString(p) => match p {
            Some(b) => if is_utf8(b) {
                Ok(b)
            } else {
                Err(StringifyError::NotUtf8)
            },
            None => Err(StringifyError::NullBulkString),
        },
        _ => Err(StringifyError::NotSupported),
    }
}

/// Whether the frame is a simple or bulk string holding these bytes.
pub open spec fn frame_equals_bytes(v: FrameView, s: Seq<u8>) -> bool {
    match v {
        FrameView::SimpleString(p) => p == s,
        FrameView::BulkString(p) => match p {
            Some(b) => b == s,
            None => false,
        },
        _ => false,
    }
}

impl RespFrame {
    /// Whether this frame is a simple or bulk string holding `s`.
    pub fn equal_bytes(&self, s: &[u8]) -> (r: bool)
        ensures
            r == frame_equals_bytes(self@, s@),
    {
        match self {
            RespFrame::SimpleString(p) => bytes_eq(p.0.as_slice(), s),
            RespFrame::BulkString(b) => match &b.0 {
                Some(v) => bytes_eq(v.as_slice(), s),
                None => false,
            },
            _ => false,
        }
    }

    /// The key text this frame yields, as `try_string_view` has it.
    pub fn try_to_string(&self) -> (r: Result<Vec<u8>, StringifyError>)
        ensures
            match r {
                Ok(v) => try_string_view(self@) == Ok::<Seq<u8>, StringifyError>(v@),
                Err(e) => try_string_view(self@) == Err::<Seq<u8>, StringifyError>(e),
            },
    {
        match self {
            RespFrame::SimpleString(p) => {
                if crate::text::check_utf8(p.0.as_slice()) {
                    Ok(copy_bytes(&p.0))
                } else {
                    Err(StringifyError::NotUtf8)
                }
            },
            RespFrame::BulkString(b) => match &b.0 {
                Some(v) => {
                    if crate::text::check_utf8(v.as_slice()) {
                        Ok(copy_bytes(v))
                    } else {
                        Err(StringifyError::NotUtf8)
                    }
                },
                None => Err(StringifyError::NullBulkString),
            },
            _ => Err(StringifyError::NotSupported),
        }
    }

    /// Text becomes a simple string when short, a bulk string when long.
    pub fn from_text(v: Vec<u8>) -> (r: RespFrame)
        ensures
            r@ == (if v@.len() > MAX_SIMPLE_STRING {
                FrameView::BulkString(Some(v@))
            } else {
                FrameView::SimpleString(v@)
            }),
    {
        if v.len() > MAX_SIMPLE_STRING {
            RespFrame::BulkString(BulkString(Some(v)))
        } else {
            RespFrame::SimpleString(SimpleString(v))
        }
    }

    /// A frame equal in value to this one.
    pub fn duplicate(&self) -> (r: RespFrame)
        ensures
            r@ == self@,
        decreases *self,
    {
        match self {
            RespFrame::SimpleString(s) => RespFrame::SimpleString(SimpleString(copy_bytes(&s.0))),
            RespFrame::Error(e) => RespFrame::Error(SimpleError(copy_bytes(&e.0))),
            RespFrame::Integer(i) => RespFrame::Integer(*i),
            RespFrame::BulkString(b) => match &b.0 {
                Some(v) => RespFrame::BulkString(BulkString(Some(copy_bytes(v)))),
                None => RespFrame::BulkString(BulkString(None)),
            },
            RespFrame::Array(a) => match &a.0 {
                Some(v) => {
                    let out = duplicate_frames(v);
                    RespFrame::Array(RespArray(Some(out)))
                },
                None => RespFrame::Array(RespArray(None)),
            },
            RespFrame::Null(_) => RespFrame::Null(RespNull),
            RespFrame::Boolean(b) => RespFrame::Boolean(*b),
            RespFrame::Double(d) => RespFrame::Double(copy_bytes(d)),
            RespFrame::MapData(m) => {
                let mut out: Vec<(Vec<u8>, RespFrame)> = Vec::new();
                let n = m.0.len();
                let mut i: usize = 0;
                proof {
                    lemma_pairs_view_len(m.0@);
                }
                while i < n
                    invariant
                        i <= n,
                        n == m.0@.len(),
                        m.0@.len() == pairs_view(m.0@).len(),
                        forall|j: int| 0 <= j < n ==> #[trigger] pairs_view(m.0@)[j] == (
                        m.0@[j].0@,
                        frame_view(m.0@[j].1),
                        ),
                        pairs_view(out@) =~= pairs_view(m.0@).take(i as int),
                        forall|j: int|
                            0 <= j < n ==> decreases_to!(*self => m.0@[j].1),
                    decreases n - i,
                {
                    let key = copy_bytes(&m.0[i].0);
                    let val = m.0[i].1.duplicate();
                    proof {
                        lemma_pairs_view_push(out@, (key, val));
                        assert(pairs_view(out@).push((key@, frame_view(val))) =~= pairs_view(
                            m.0@,
                        ).take(i + 1));
                    }
                    out.push((key, val));
                    i = i + 1;
                }
                proof {
                    assert(pairs_view(m.0@).take(n as int) =~= pairs_view(m.0@));
                }
                RespFrame::MapData(RespMap(out))
            },
            RespFrame::SetData(s) => {
                let out = duplicate_frames(&s.0);
                RespFrame::SetData(RespSet(out))
            },
        }
    }
}

/// Frames equal in value to those of `v`, in order.
fn duplicate_frames(v: &Vec<RespFrame>) -> (r: Vec<RespFrame>)
    ensures
        frames_view(r@) == frames_view(v@),
    decreases v@,
{
    let mut out: Vec<RespFrame> = Vec::new();
    let n = v.len();
    let mut i: usize = 0;
    proof {
        lemma_frames_view_len(v@);
    }
    while i < n
        invariant
            i <= n,
            n == v@.len(),
            v@.len() == frames_view(v@).len(),
            forall|j: int| 0 <= j < n ==> #[trigger] frames_view(v@)[j] == frame_view(v@[j]),
            frames_view(out@) =~= frames_view(v@).take(i as int),
            forall|j: int| 0 <= j < n ==> decreases_to!(v@ => v@[j]),
        decreases n - i,
    {
        let c = v[i].duplicate();
        proof {
            lemma_frames_view_push(out@, c);
            assert(frames_view(out@).push(frame_view(c)) =~= frames_view(v@).take(i + 1));
        }
        out.push(c);
        i = i + 1;
    }
    proof {
        assert(frames_view(v@).take(n as int) =~= frames_view(v@));
    }
    out
}

} // verus!
