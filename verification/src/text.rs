//! Text classes the protocol reads and writes: decimal numbers, ASCII
//! case folding, UTF-8 well-formedness, and the written form of a double.
use vstd::prelude::*;
use crate::wire::{CR, LF, clean_text};

verus! {

pub open spec fn is_digit(b: u8) -> bool {
    48 <= b <= 57
}

pub open spec fn all_digits(s: Seq<u8>) -> bool {
    forall|i: int| 0 <= i < s.len() ==> is_digit(#[trigger] s[i])
}

/// The canonical decimal text of `n`, most significant digit first.
pub open spec fn dec_rep(n: nat) -> Seq<u8>
    decreases n,
{
    if n < 10 {
        seq![(48 + n) as u8]
    } else {
        dec_rep(n / 10).push((48 + n % 10) as u8)
    }
}

/// The value of a digit string, read left to right.
pub open spec fn dec_val(s: Seq<u8>) -> int
    decreases s.len(),
{
    if s.len() == 0 {
        0
    } else {
        dec_val(s.drop_last()) * 10 + (s.last() - 48)
    }
}

pub proof fn lemma_dec_rep_digits(n: nat)
    ensures
        dec_rep(n).len() >= 1,
        all_digits(dec_rep(n)),
        clean_text(dec_rep(n)),
    decreases n,
{
    if n >= 10 {
        lemma_dec_rep_digits(n / 10);
    }
    assert forall|i: int| 0 <= i < dec_rep(n).len() implies #[trigger] dec_rep(n)[i] != CR
        && dec_rep(n)[i] != LF by {
        assert(is_digit(dec_rep(n)[i]));
    }
}

pub proof fn lemma_dec_val_rep(n: nat)
    ensures
        dec_val(dec_rep(n)) == n,
    decreases n,
{
    if n < 10 {
        assert(dec_rep(n).drop_last() =~= Seq::<u8>::empty());
        assert(dec_val(Seq::<u8>::empty()) == 0);
    } else {
        lemma_dec_val_rep(n / 10);
        assert(dec_rep(n).drop_last() =~= dec_rep(n / 10));
    }
}

pub proof fn lemma_dec_val_nonneg(s: Seq<u8>)
    requires
        all_digits(s),
    ensures
        dec_val(s) >= 0,
    decreases s.len(),
{
    if s.len() > 0 {
        assert(all_digits(s.drop_last()));
        lemma_dec_val_nonneg(s.drop_last());
    }
}

/// Reading more digits never shrinks the value.
pub proof fn lemma_dec_val_prefix(s: Seq<u8>, m: int)
    requires
        all_digits(s),
        0 <= m <= s.len(),
    ensures
        dec_val(s.take(m)) <= dec_val(s),
    decreases s.len(),
{
    if m < s.len() {
        assert(all_digits(s.drop_last()));
        assert(s.drop_last().take(m) =~= s.take(m));
        lemma_dec_val_prefix(s.drop_last(), m);
        lemma_dec_val_nonneg(s.drop_last());
    } else {
        assert(s.take(m) =~= s);
    }
}

/// Write `n` in decimal.
pub fn format_u64(n: u64) -> (r: Vec<u8>)
    ensures
        r@ == dec_rep(n as nat),
    decreases n,
{
    if n < 10 {
        let mut v: Vec<u8> = Vec::new();
        v.push(48 + (n as u8));
        proof {
            assert(v@ =~= dec_rep(n as nat));
        }
        v
    } else {
        let mut v = format_u64(n / 10);
        v.push(48 + ((n % 10) as u8));
        v
    }
}

/// What `s` means as a signed 64-bit decimal: an optional sign, then at
/// least one digit, with a value inside the 64-bit range.
pub open spec fn spec_parse_i64(s: Seq<u8>) -> Option<int> {
    let signed = s.len() > 0 && (s[0] == 43 || s[0] == 45);
    let body = if signed {
        s.skip(1)
    } else {
        s
    };
    let neg = s.len() > 0 && s[0] == 45;
    if body.len() == 0 || !all_digits(body) {
        None
    } else {
        let v = if neg {
            -dec_val(body)
        } else {
            dec_val(body)
        };
        if i64::MIN <= v <= i64::MAX {
            Some(v)
        } else {
            None
        }
    }
}

/// Read the region `[start, end)` of `data` as a signed 64-bit decimal.
pub fn parse_i64_range(data: &[u8], start: usize, end: usize) -> (r: Option<i64>)
    requires
        start <= end <= data@.len(),
    ensures
        match r {
            Some(v) => spec_parse_i64(data@.subrange(start as int, end as int)) == Some(v as int),
            None => spec_parse_i64(data@.subrange(start as int, end as int)) is None,
        },
{
    let ghost s = data@.subrange(start as int, end as int);
    let mut i: usize = start;
    let mut neg: bool = false;
    if i < end && (data[i] == 43 || data[i] == 45) {
        neg = data[i] == 45;
        i = i + 1;
    }
    let ghost body = if s.len() > 0 && (s[0] == 43 || s[0] == 45) {
        s.skip(1)
    } else {
        s
    };
    proof {
        assert(body =~= data@.subrange(i as int, end as int));
    }
    if i == end {
        return None;
    }
    let body_start: usize = i;
    let mut acc: u64 = 0;
    while i < end
        invariant
            start <= body_start <= i <= end <= data@.len(),
            s == data@.subrange(start as int, end as int),
            body == data@.subrange(body_start as int, end as int),
            body == (if s.len() > 0 && (s[0] == 43 || s[0] == 45) {
                s.skip(1)
            } else {
                s
            }),
            neg == (s.len() > 0 && s[0] == 45),
            body.len() > 0,
            all_digits(body.take(i - body_start)),
            acc == dec_val(body.take(i - body_start)),
        decreases end - i,
    {
        let b = data[i];
        if b < 48 || b > 57 {
            proof {
                assert(body[i - body_start] == b);
                assert(!all_digits(body)) by {
                    assert(!is_digit(body[i - body_start]));
                }
                assert(spec_parse_i64(s) is None);
            }
            return None;
        }
        let d: u64 = (b - 48) as u64;
        proof {
            assert(body.take(i - body_start + 1).drop_last() =~= body.take(i - body_start));
            assert(body.take(i - body_start + 1).last() == body[i - body_start]);
            assert(body[i - body_start] == b);
        }
        if acc >= 1844674407370955161 {
            proof {
                if all_digits(body) {
                    assert(dec_val(body.take(i - body_start + 1)) == acc * 10 + d);
                    lemma_dec_val_prefix(body, i - body_start + 1);
                    assert(dec_val(body) >= acc * 10);
                    assert(dec_val(body) > i64::MAX);
                    assert(-dec_val(body) < i64::MIN);
                }
                assert(spec_parse_i64(s) is None);
            }
            return None;
        }
        acc = acc * 10 + d;
        i = i + 1;
    }
    proof {
        assert(body.take(i - body_start) =~= body);
    }
    if neg {
        if acc > 9223372036854775808 {
            None
        } else if acc == 9223372036854775808 {
            Some(i64::MIN)
        } else {
            Some(-(acc as i64))
        }
    } else {
        if acc > 9223372036854775807 {
            None
        } else {
            Some(acc as i64)
        }
    }
}

pub open spec fn lower_byte(b: u8) -> u8 {
    if 65 <= b <= 90 {
        (b + 32) as u8
    } else {
        b
    }
}

/// `s` with every ASCII upper-case letter folded to lower case.
pub open spec fn lower_bytes(s: Seq<u8>) -> Seq<u8> {
    Seq::new(s.len(), |i: int| lower_byte(s[i]))
}

/// Fold the ASCII upper-case letters of `v` to lower case.
pub fn to_lower(v: &[u8]) -> (r: Vec<u8>)
    ensures
        r@ == lower_bytes(v@),
{
    let mut out: Vec<u8> = Vec::new();
    let n = v.len();
    let mut i: usize = 0;
    while i < n
        invariant
            i <= n,
            n == v@.len(),
            out@ =~= lower_bytes(v@).take(i as int),
        decreases n - i,
    {
        let b = v[i];
        if b >= 65 && b <= 90 {
            out.push(b + 32);
        } else {
            out.push(b);
        }
        proof {
            assert(out@ =~= lower_bytes(v@).take(i + 1));
        }
        i = i + 1;
    }
    proof {
        assert(lower_bytes(v@).take(n as int) =~= lower_bytes(v@));
    }
    out
}

pub open spec fn is_cont_byte(b: u8) -> bool {
    128 <= b <= 191
}

/// Well-formed UTF-8: every code point correctly encoded in its shortest
/// form, with surrogates and values above 0x10FFFF excluded.
pub open spec fn is_utf8(s: Seq<u8>) -> bool
    decreases s.len(),
{
    if s.len() == 0 {
        true
    } else {
        let b0 = s[0];
        if b0 <= 127 {
            is_utf8(s.skip(1))
        } else if 194 <= b0 <= 223 {
            s.len() >= 2 && is_cont_byte(s[1]) && is_utf8(s.skip(2))
        } else if b0 == 224 {
            s.len() >= 3 && 160 <= s[1] <= 191 && is_cont_byte(s[2]) && is_utf8(s.skip(3))
        } else if 225 <= b0 <= 236 || b0 == 238 || b0 == 239 {
            s.len() >= 3 && is_cont_byte(s[1]) && is_cont_byte(s[2]) && is_utf8(s.skip(3))
        } else if b0 == 237 {
            s.len() >= 3 && 128 <= s[1] <= 159 && is_cont_byte(s[2]) && is_utf8(s.skip(3))
        } else if b0 == 240 {
            s.len() >= 4 && 144 <= s[1] <= 191 && is_cont_byte(s[2]) && is_cont_byte(s[3])
                && is_utf8(s.skip(4))
        } else if 241 <= b0 <= 243 {
            s.len() >= 4 && is_cont_byte(s[1]) && is_cont_byte(s[2]) && is_cont_byte(s[3])
                && is_utf8(s.skip(4))
        } else if b0 == 244 {
            s.len() >= 4 && 128 <= s[1] <= 143 && is_cont_byte(s[2]) && is_cont_byte(s[3])
                && is_utf8(s.skip(4))
        } else {
            false
        }
    }
}

/// Decide whether `v` is well-formed UTF-8.
pub fn check_utf8(v: &[u8]) -> (r: bool)
    ensures
        r == is_utf8(v@),
{
    let n = v.len();
    let mut i: usize = 0;
    proof {
        assert(v@.skip(0) =~= v@);
    }
    while i < n
        invariant
            i <= n,
            n == v@.len(),
            is_utf8(v@) == is_utf8(v@.skip(i as int)),
        decreases n - i,
    {
        let ghost pre = v@.skip(i as int);
        let b0 = v[i];
        let step: usize;
        if b0 <= 127 {
            step = 1;
        } else if 194 <= b0 && b0 <= 223 {
            if n - i < 2 || !(v[i + 1] >= 128 && v[i + 1] <= 191) {
                proof {
                    assert(pre[0] == b0);
                    if i + 1 < n {
                        assert(pre[1] == v@[i + 1]);
                    }
                }
                return false;
            }
            step = 2;
        } else if b0 >= 224 && b0 <= 239 {
            let lo: u8 = if b0 == 224 {
                160
            } else if b0 == 237 {
                128
            } else {
                128
            };
            let hi: u8 = if b0 == 237 {
                159
            } else {
                191
            };
            if n - i < 3 || !(v[i + 1] >= lo && v[i + 1] <= hi) || !(v[i + 2] >= 128 && v[i + 2]
                <= 191) {
                proof {
                    assert(pre[0] == b0);
                    if i + 1 < n {
                        assert(pre[1] == v@[i + 1]);
                    }
                    if i + 2 < n {
                        assert(pre[2] == v@[i + 2]);
                    }
                }
                return false;
            }
            step = 3;
        } else if b0 >= 240 && b0 <= 244 {
            let lo: u8 = if b0 == 240 {
                144
            } else {
                128
            };
            let hi: u8 = if b0 == 244 {
                143
            } else {
                191
            };
            if n - i < 4 || !(v[i + 1] >= lo && v[i + 1] <= hi) || !(v[i + 2] >= 128 && v[i + 2]
                <= 191) || !(v[i + 3] >= 128 && v[i + 3] <= 191) {
                proof {
                    assert(pre[0] == b0);
                    if i + 1 < n {
                        assert(pre[1] == v@[i + 1]);
                    }
                    if i + 2 < n {
                        assert(pre[2] == v@[i + 2]);
                    }
                    if i + 3 < n {
                        assert(pre[3] == v@[i + 3]);
                    }
                }
                return false;
            }
            step = 4;
        } else {
            proof {
                assert(pre[0] == b0);
            }
            return false;
        }
        proof {
            assert(pre[0] == b0);
            if i + 1 < n {
                assert(pre[1] == v@[i + 1]);
            }
            if i + 2 < n {
                assert(pre[2] == v@[i + 2]);
            }
            if i + 3 < n {
                assert(pre[3] == v@[i + 3]);
            }
            assert(pre.skip(step as int) =~= v@.skip(i + step));
        }
        i = i + step;
    }
    proof {
        assert(v@.skip(n as int) =~= Seq::<u8>::empty());
    }
    true
}

/// `s` without a leading plus or minus sign.
pub open spec fn strip_sign(s: Seq<u8>) -> Seq<u8> {
    if s.len() > 0 && (s[0] == 43 || s[0] == 45) {
        s.skip(1)
    } else {
        s
    }
}

/// Position of the first `a` or `b` in `s`, if any.
pub open spec fn find_either(s: Seq<u8>, a: u8, b: u8) -> Option<int>
    decreases s.len(),
{
    if s.len() == 0 {
        None
    } else if s[0] == a || s[0] == b {
        Some(0)
    } else {
        match find_either(s.skip(1), a, b) {
            Some(p) => Some(p + 1),
            None => None,
        }
    }
}

pub proof fn lemma_find_either_found(s: Seq<u8>, a: u8, b: u8)
    requires
        find_either(s, a, b) is Some,
    ensures
        0 <= find_either(s, a, b)->0 < s.len(),
        s[find_either(s, a, b)->0] == a || s[find_either(s, a, b)->0] == b,
        forall|j: int| 0 <= j < find_either(s, a, b)->0 ==> #[trigger] s[j] != a && s[j] != b,
    decreases s.len(),
{
    if s.len() == 0 {
    } else if s[0] == a || s[0] == b {
    } else {
        lemma_find_either_found(s.skip(1), a, b);
        let p = find_either(s, a, b)->0;
        assert(s.skip(1)[p - 1] == s[p]);
        assert forall|j: int| 0 <= j < p implies #[trigger] s[j] != a && s[j] != b by {
            if j > 0 {
                assert(s.skip(1)[j - 1] == s[j]);
            }
        }
    }
}

pub proof fn lemma_find_either_at(s: Seq<u8>, a: u8, b: u8, p: int)
    requires
        0 <= p < s.len(),
        s[p] == a || s[p] == b,
        forall|j: int| 0 <= j < p ==> #[trigger] s[j] != a && s[j] != b,
    ensures
        find_either(s, a, b) == Some(p),
    decreases s.len(),
{
    if p > 0 {
        assert forall|j: int| 0 <= j < p - 1 implies #[trigger] s.skip(1)[j] != a && s.skip(1)[j]
            != b by {
            assert(s.skip(1)[j] == s[j + 1]);
        }
        assert(s.skip(1)[p - 1] == s[p]);
        lemma_find_either_at(s.skip(1), a, b, p - 1);
    }
}

pub proof fn lemma_find_either_none(s: Seq<u8>, a: u8, b: u8)
    requires
        forall|j: int| 0 <= j < s.len() ==> #[trigger] s[j] != a && s[j] != b,
    ensures
        find_either(s, a, b) == None::<int>,
    decreases s.len(),
{
    if s.len() > 0 {
        assert forall|j: int| 0 <= j < s.skip(1).len() implies #[trigger] s.skip(1)[j] != a
            && s.skip(1)[j] != b by {
            assert(s.skip(1)[j] == s[j + 1]);
        }
        lemma_find_either_none(s.skip(1), a, b);
    }
}

/// Find the first `a` or `b` in the region `[start, end)` of `data`.
pub fn find_either_range(data: &[u8], start: usize, end: usize, a: u8, b: u8) -> (r: Option<
    usize,
>)
    requires
        start <= end <= data@.len(),
    ensures
        match r {
            Some(p) => start <= p < end && find_either(
                data@.subrange(start as int, end as int),
                a,
                b,
            ) == Some(p - start),
            None => find_either(data@.subrange(start as int, end as int), a, b) == None::<int>,
        },
{
    let ghost s = data@.subrange(start as int, end as int);
    let mut i: usize = start;
    while i < end
        invariant
            start <= i <= end <= data@.len(),
            s == data@.subrange(start as int, end as int),
            forall|j: int| 0 <= j < i - start ==> #[trigger] s[j] != a && s[j] != b,
        decreases end - i,
    {
        if data[i] == a || data[i] == b {
            proof {
                assert(s[i - start] == data@[i as int]);
                lemma_find_either_at(s, a, b, i - start);
            }
            return Some(i);
        }
        proof {
            assert(s[i - start] == data@[i as int]);
        }
        i = i + 1;
    }
    proof {
        lemma_find_either_none(s, a, b);
    }
    None
}

pub open spec fn inf_text() -> Seq<u8> {
    seq![105u8, 110u8, 102u8]
}

pub open spec fn infinity_text() -> Seq<u8> {
    seq![105u8, 110u8, 102u8, 105u8, 110u8, 105u8, 116u8, 121u8]
}

pub open spec fn nan_text() -> Seq<u8> {
    seq![110u8, 97u8, 110u8]
}

/// A named non-finite value, compared without regard to letter case.
pub open spec fn is_special_double(t: Seq<u8>) -> bool {
    lower_bytes(t) == inf_text() || lower_bytes(t) == infinity_text() || lower_bytes(t)
        == nan_text()
}

/// Digits with at most one point, and a digit on at least one side of it.
pub open spec fn is_mantissa(m: Seq<u8>) -> bool {
    match find_either(m, 46, 46) {
        None => m.len() > 0 && all_digits(m),
        Some(d) => all_digits(m.take(d)) && all_digits(m.skip(d + 1)) && (d > 0 || m.len() > d
            + 1),
    }
}

/// An exponent: an optional sign, then at least one digit.
pub open spec fn is_exponent(u: Seq<u8>) -> bool {
    strip_sign(u).len() > 0 && all_digits(strip_sign(u))
}

/// The written form of a double, as the decimal number grammar has it: an
/// optional sign, then a mantissa with an optional exponent, or one of the
/// named non-finite values.
pub open spec fn is_double_repr(s: Seq<u8>) -> bool {
    let t = strip_sign(s);
    is_special_double(t) || match find_either(t, 101, 69) {
        None => is_mantissa(t),
        Some(e) => is_mantissa(t.take(e)) && is_exponent(t.skip(e + 1)),
    }
}

pub proof fn lemma_mantissa_clean(m: Seq<u8>)
    requires
        is_mantissa(m),
    ensures
        clean_text(m),
{
    assert forall|k: int| 0 <= k < m.len() implies #[trigger] m[k] != CR && m[k] != LF by {
        match find_either(m, 46, 46) {
            None => {
                assert(is_digit(m[k]));
            },
            Some(d) => {
                lemma_find_either_found(m, 46, 46);
                if k < d {
                    assert(is_digit(m.take(d)[k]));
                } else if k == d {
                    assert(m[k] == 46);
                } else {
                    assert(is_digit(m.skip(d + 1)[k - d - 1]));
                }
            },
        }
    }
}

pub proof fn lemma_exponent_clean(u: Seq<u8>)
    requires
        is_exponent(u),
    ensures
        clean_text(u),
{
    let w = strip_sign(u);
    assert forall|k: int| 0 <= k < u.len() implies #[trigger] u[k] != CR && u[k] != LF by {
        if u.len() > 0 && (u[0] == 43 || u[0] == 45) {
            if k > 0 {
                assert(is_digit(w[k - 1]));
            }
        } else {
            assert(is_digit(w[k]));
        }
    }
}

/// The written form of a double holds neither CR nor LF.
pub proof fn lemma_double_repr_clean(s: Seq<u8>)
    requires
        is_double_repr(s),
    ensures
        clean_text(s),
{
    let t = strip_sign(s);
    assert forall|k: int| 0 <= k < t.len() implies #[trigger] t[k] != CR && t[k] != LF by {
        if is_special_double(t) {
            let lt = lower_bytes(t);
            assert(lt.len() == t.len());
            assert(lt[k] == lower_byte(t[k]));
            if lt == inf_text() {
                assert(lt[k] == 105 || lt[k] == 110 || lt[k] == 102) by {
                    assert(0 <= k < 3);
                }
            } else if lt == nan_text() {
                assert(lt[k] == 110 || lt[k] == 97) by {
                    assert(0 <= k < 3);
                }
            } else {
                assert(lt[k] == 105 || lt[k] == 110 || lt[k] == 102 || lt[k] == 116 || lt[k]
                    == 121) by {
                    assert(0 <= k < 8);
                }
            }
            assert(lower_byte(t[k]) != CR && lower_byte(t[k]) != LF);
        } else {
            match find_either(t, 101, 69) {
                None => {
                    lemma_mantissa_clean(t);
                },
                Some(e) => {
                    lemma_find_either_found(t, 101, 69);
                    lemma_mantissa_clean(t.take(e));
                    lemma_exponent_clean(t.skip(e + 1));
                    if k < e {
                        assert(t.take(e)[k] == t[k]);
                    } else if k > e {
                        assert(t.skip(e + 1)[k - e - 1] == t[k]);
                    }
                },
            }
        }
    }
    assert forall|j: int| 0 <= j < s.len() implies #[trigger] s[j] != CR && s[j] != LF by {
        if s.len() > 0 && (s[0] == 43 || s[0] == 45) {
            if j > 0 {
                assert(t[j - 1] == s[j]);
            }
        } else {
            assert(t[j] == s[j]);
        }
    }
}

/// True when every byte of the region `[start, end)` of `data` is a digit.
pub fn digits_range(data: &[u8], start: usize, end: usize) -> (r: bool)
    requires
        start <= end <= data@.len(),
    ensures
        r == all_digits(data@.subrange(start as int, end as int)),
{
    let ghost s = data@.subrange(start as int, end as int);
    let mut i: usize = start;
    while i < end
        invariant
            start <= i <= end <= data@.len(),
            s == data@.subrange(start as int, end as int),
            forall|j: int| 0 <= j < i - start ==> is_digit(#[trigger] s[j]),
        decreases end - i,
    {
        let b = data[i];
        proof {
            assert(s[i - start] == data@[i as int]);
        }
        if b < 48 || b > 57 {
            proof {
                assert(!is_digit(s[i - start]));
            }
            return false;
        }
        i = i + 1;
    }
    true
}

/// Decide whether the region `[start, end)` of `data` reads as a double.
pub fn check_double(data: &[u8], start: usize, end: usize) -> (r: bool)
    requires
        start <= end <= data@.len(),
    ensures
        r == is_double_repr(data@.subrange(start as int, end as int)),
{
    let ghost s = data@.subrange(start as int, end as int);
    let mut i: usize = start;
    if i < end && (data[i] == 43 || data[i] == 45) {
        proof {
            assert(s[0] == data@[start as int]);
        }
        i = i + 1;
    }
    let ghost t = strip_sign(s);
    proof {
        assert(t =~= data@.subrange(i as int, end as int));
    }
    let tstart: usize = i;
    let tlen: usize = end - i;

    // The named non-finite values, compared case-blind.
    let mut special: bool = false;
    if tlen == 3 || tlen == 8 {
        special = true;
        let pat3: [u8; 3] = [105, 110, 102];
        let pat3n: [u8; 3] = [110, 97, 110];
        let pat8: [u8; 8] = [105, 110, 102, 105, 110, 105, 116, 121];
        if tlen == 3 {
            let mut inf_ok: bool = true;
            let mut nan_ok: bool = true;
            let mut k: usize = 0;
            while k < 3
                invariant
                    k <= 3,
                    tlen == 3,
                    tstart + 3 <= end <= data@.len(),
                    t == data@.subrange(tstart as int, end as int),
                    pat3@ == inf_text(),
                    pat3n@ == nan_text(),
                    inf_ok == (forall|j: int| 0 <= j < k ==> lower_byte(#[trigger] t[j])
                        == inf_text()[j]),
                    nan_ok == (forall|j: int| 0 <= j < k ==> lower_byte(#[trigger] t[j])
                        == nan_text()[j]),
                decreases 3 - k,
            {
                let b = data[tstart + k];
                proof {
                    assert(t[k as int] == data@[tstart + k]);
                }
                let lb: u8 = if b >= 65 && b <= 90 {
                    b + 32
                } else {
                    b
                };
                if lb != pat3[k] {
                    inf_ok = false;
                }
                if lb != pat3n[k] {
                    nan_ok = false;
                }
                k = k + 1;
            }
            special = inf_ok || nan_ok;
            proof {
                if inf_ok {
                    assert(lower_bytes(t) =~= inf_text());
                }
                if nan_ok {
                    assert(lower_bytes(t) =~= nan_text());
                }
                if !inf_ok && !nan_ok {
                    assert(lower_bytes(t) != inf_text());
                    assert(lower_bytes(t) != nan_text());
                    assert(lower_bytes(t).len() == 3);
                    assert(lower_bytes(t) != infinity_text());
                }
            }
        } else {
            let mut long_ok: bool = true;
            let mut k: usize = 0;
            while k < 8
                invariant
                    k <= 8,
                    tlen == 8,
                    tstart + 8 <= end <= data@.len(),
                    t == data@.subrange(tstart as int, end as int),
                    pat8@ == infinity_text(),
                    long_ok == (forall|j: int| 0 <= j < k ==> lower_byte(#[trigger] t[j])
                        == infinity_text()[j]),
                decreases 8 - k,
            {
                let b = data[tstart + k];
                proof {
                    assert(t[k as int] == data@[tstart + k]);
                }
                let lb: u8 = if b >= 65 && b <= 90 {
                    b + 32
                } else {
                    b
                };
                if lb != pat8[k] {
                    long_ok = false;
                }
                k = k + 1;
            }
            special = long_ok;
            proof {
                if long_ok {
                    assert(lower_bytes(t) =~= infinity_text());
                } else {
                    assert(lower_bytes(t) != infinity_text());
                    assert(lower_bytes(t).len() == 8);
                    assert(lower_bytes(t) != inf_text());
                    assert(lower_bytes(t) != nan_text());
                }
            }
        }
    } else {
        proof {
            assert(lower_bytes(t).len() == t.len());
            assert(lower_bytes(t) != inf_text());
            assert(lower_bytes(t) != infinity_text());
            assert(lower_bytes(t) != nan_text());
        }
    }
    if special {
        return true;
    }

    // Split off an exponent, then check the mantissa and exponent parts.
    match find_either_range(data, tstart, end, 101, 69) {
        None => check_mantissa(data, tstart, end),
        Some(p) => {
            let m_ok = check_mantissa(data, tstart, p);
            let e_ok = check_exponent(data, p + 1, end);
            proof {
                assert(t.take(p - tstart) =~= data@.subrange(tstart as int, p as int));
                assert(t.skip(p - tstart + 1) =~= data@.subrange(p + 1, end as int));
            }
            m_ok && e_ok
        },
    }
}

/// Decide whether the region `[start, end)` of `data` is a mantissa.
fn check_mantissa(data: &[u8], start: usize, end: usize) -> (r: bool)
    requires
        start <= end <= data@.len(),
    ensures
        r == is_mantissa(data@.subrange(start as int, end as int)),
{
    let ghost m = data@.subrange(start as int, end as int);
    match find_either_range(data, start, end, 46, 46) {
        None => end - start > 0 && digits_range(data, start, end),
        Some(d) => {
            proof {
                assert(m.take(d - start) =~= data@.subrange(start as int, d as int));
                assert(m.skip(d - start + 1) =~= data@.subrange(d + 1, end as int));
            }
            let left = digits_range(data, start, d);
            let right = digits_range(data, d + 1, end);
            left && right && (d > start || end > d + 1)
        },
    }
}

/// Decide whether the region `[start, end)` of `data` is an exponent.
fn check_exponent(data: &[u8], start: usize, end: usize) -> (r: bool)
    requires
        start <= end <= data@.len(),
    ensures
        r == is_exponent(data@.subrange(start as int, end as int)),
{
    let ghost u = data@.subrange(start as int, end as int);
    let mut i: usize = start;
    if i < end && (data[i] == 43 || data[i] == 45) {
        proof {
            assert(u[0] == data@[start as int]);
        }
        i = i + 1;
    }
    proof {
        assert(strip_sign(u) =~= data@.subrange(i as int, end as int));
    }
    end - i > 0 && digits_range(data, i, end)
}

} // verus!


