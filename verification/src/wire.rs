//! Byte-level building blocks of the wire format: the CRLF terminator,
//! decimal number text, and the text classes the frame kinds rely on.
use vstd::prelude::*;

verus! {

pub const CR: u8 = 13;

pub const LF: u8 = 10;

/// True when `s` holds no CRLF pair, so a CRLF scan runs past all of it.
pub open spec fn no_crlf(s: Seq<u8>) -> bool {
    forall|i: int| 0 <= i && i + 1 < s.len() ==> !(#[trigger] s[i] == CR && s[i + 1] == LF)
}

/// True when `s` holds neither CR nor LF anywhere.
pub open spec fn clean_text(s: Seq<u8>) -> bool {
    forall|i: int| 0 <= i < s.len() ==> #[trigger] s[i] != CR && s[i] != LF
}

pub proof fn lemma_clean_text_no_crlf(s: Seq<u8>)
    requires
        clean_text(s),
    ensures
        no_crlf(s),
{
}

/// Position of the first CRLF pair in `s`, if any.
pub open spec fn find_crlf(s: Seq<u8>) -> Option<int>
    decreases s.len(),
{
    if s.len() < 2 {
        None
    } else if s[0] == CR && s[1] == LF {
        Some(0)
    } else {
        match find_crlf(s.skip(1)) {
            Some(p) => Some(p + 1),
            None => None,
        }
    }
}

pub proof fn lemma_find_crlf_found(s: Seq<u8>)
    requires
        find_crlf(s) is Some,
    ensures
        0 <= find_crlf(s)->0,
        find_crlf(s)->0 + 2 <= s.len(),
        s[find_crlf(s)->0] == CR,
        s[find_crlf(s)->0 + 1] == LF,
        forall|j: int| 0 <= j < find_crlf(s)->0 ==> !(#[trigger] s[j] == CR && s[j + 1] == LF),
    decreases s.len(),
{
    if s.len() < 2 {
    } else if s[0] == CR && s[1] == LF {
    } else {
        lemma_find_crlf_found(s.skip(1));
        let p = find_crlf(s)->0;
        assert(s.skip(1)[p - 1] == s[p]);
        assert(s.skip(1)[p] == s[p + 1]);
        assert forall|j: int| 0 <= j < p implies !(#[trigger] s[j] == CR && s[j + 1] == LF) by {
            if j > 0 {
                assert(s.skip(1)[j - 1] == s[j]);
                assert(s.skip(1)[j] == s[j + 1]);
            }
        }
    }
}

/// A CRLF at position `p` with none before it is the one the scan finds.
pub proof fn lemma_find_crlf_at(s: Seq<u8>, p: int)
    requires
        0 <= p,
        p + 2 <= s.len(),
        s[p] == CR,
        s[p + 1] == LF,
        forall|j: int| 0 <= j < p ==> !(#[trigger] s[j] == CR && s[j + 1] == LF),
    ensures
        find_crlf(s) == Some(p),
    decreases s.len(),
{
    if p == 0 {
    } else {
        assert forall|j: int| 0 <= j < p - 1 implies !(#[trigger] s.skip(1)[j] == CR && s.skip(1)[j + 1]
            == LF) by {
            assert(s.skip(1)[j] == s[j + 1]);
            assert(s.skip(1)[j + 1] == s[j + 2]);
        }
        assert(s.skip(1)[p - 1] == s[p]);
        assert(s.skip(1)[p] == s[p + 1]);
        lemma_find_crlf_at(s.skip(1), p - 1);
    }
}

/// Scanning text that ends in CRLF finds that terminator, whatever follows.
pub proof fn lemma_find_crlf_line(line: Seq<u8>, rest: Seq<u8>)
    requires
        no_crlf(line),
    ensures
        find_crlf(line + seq![CR, LF] + rest) == Some(line.len() as int),
{
    let s = line + seq![CR, LF] + rest;
    let p = line.len() as int;
    assert(s[p] == CR);
    assert(s[p + 1] == LF);
    assert forall|j: int| 0 <= j < p implies !(#[trigger] s[j] == CR && s[j + 1] == LF) by {
        if j + 1 < p {
            assert(s[j] == line[j]);
            assert(s[j + 1] == line[j + 1]);
        } else {
            assert(s[j] == line[j]);
            assert(s[j + 1] == CR);
        }
    }
    lemma_find_crlf_at(s, p);
}

/// A strict prefix of text-plus-CRLF holds no CRLF pair.
pub proof fn lemma_find_crlf_line_prefix(line: Seq<u8>, m: int)
    requires
        no_crlf(line),
        0 <= m < line.len() + 2,
    ensures
        find_crlf((line + seq![CR, LF]).take(m)) == None::<int>,
{
    let s = (line + seq![CR, LF]).take(m);
    assert forall|i: int| 0 <= i && i + 1 < s.len() implies !(#[trigger] s[i] == CR && s[i + 1] == LF) by {
        if i + 1 < line.len() {
            assert(s[i] == line[i]);
            assert(s[i + 1] == line[i + 1]);
        } else {
            assert(s[i] == line[i]);
            assert(s[i + 1] == CR);
        }
    }
    if find_crlf(s) is Some {
        lemma_find_crlf_found(s);
    }
}

/// Scan `data` from `from` for the first CRLF pair.
pub fn find_crlf_from(data: &[u8], from: usize) -> (r: Option<usize>)
    requires
        from <= data@.len(),
    ensures
        match r {
            Some(p) => from <= p && find_crlf(data@.skip(from as int)) == Some(p - from),
            None => find_crlf(data@.skip(from as int)) == None::<int>,
        },
{
    let n = data.len();
    let ghost s = data@.skip(from as int);
    let mut i: usize = from;
    while n > 0 && i < n - 1
        invariant
            from <= i <= n,
            n == data@.len(),
            s == data@.skip(from as int),
            forall|j: int| 0 <= j < i - from ==> !(#[trigger] s[j] == CR && s[j + 1] == LF),
        decreases n - i,
    {
        if data[i] == CR && data[i + 1] == LF {
            proof {
                assert(s[i - from] == data@[i as int]);
                assert(s[i - from + 1] == data@[i + 1]);
                lemma_find_crlf_at(s, i - from);
            }
            return Some(i);
        }
        proof {
            assert(s[i - from] == data@[i as int]);
            assert(s[i - from + 1] == data@[i + 1]);
        }
        i = i + 1;
    }
    proof {
        assert forall|j: int| 0 <= j && j + 1 < s.len() implies !(#[trigger] s[j] == CR && s[j + 1] == LF)
            by {
            assert(s[j] == data@[from + j]);
            assert(s[j + 1] == data@[from + j + 1]);
        }
        if find_crlf(s) is Some {
            lemma_find_crlf_found(s);
        }
    }
    None
}

} // verus!
