//! Executable byte-level scanning, each function proved against the
//! corresponding function of the model.

use vstd::prelude::*;

use crate::model::CR;
use crate::model::LF;
use crate::model::SP;
use crate::model::all_digits;
use crate::model::crlf_at;
use crate::model::dec_value;
use crate::model::find_byte;
use crate::model::find_crlf;
use crate::model::has_prefix;
use crate::model::is_digit;
use crate::model::lemma_find_byte_absent;
use crate::model::lemma_find_byte_from_parts;
use crate::model::lemma_find_crlf_absent;
use crate::model::lemma_find_crlf_from_parts;
use crate::model::spec_content_length;

verus! {

/// The index of the first CRLF pair of `v`, if any.
pub fn find_crlf_vec(v: &Vec<u8>) -> (r: Option<usize>)
    ensures
        match r {
            Some(i) => find_crlf(v@) == Some(i as int),
            None => find_crlf(v@) is None,
        },
{
    let mut i: usize = 0;
    loop
        invariant
            i <= v@.len(),
            forall|j: int| 0 <= j < i ==> !crlf_at(v@, j),
        decreases v@.len() - i,
    {
        let n = v.len();
        if n < 2 || i > n - 2 {
            proof {
                assert forall|j: int| !crlf_at(v@, j) by {
                    if 0 <= j && j + 2 <= v@.len() {
                        assert(j < i);
                    }
                }
                lemma_find_crlf_absent(v@);
            }
            return None;
        }
        if v[i] == CR && v[i + 1] == LF {
            proof {
                lemma_find_crlf_from_parts(v@, i as int);
            }
            return Some(i);
        }
        i = i + 1;
    }
}

/// The index of the first occurrence of `b` in `v`, if any.
pub fn find_byte_vec(v: &Vec<u8>, b: u8) -> (r: Option<usize>)
    ensures
        match r {
            Some(i) => find_byte(v@, b) == Some(i as int),
            None => find_byte(v@, b) is None,
        },
{
    let mut i: usize = 0;
    loop
        invariant
            i <= v@.len(),
            forall|j: int| 0 <= j < i ==> v@[j] != b,
        decreases v@.len() - i,
    {
        if i >= v.len() {
            proof {
                lemma_find_byte_absent(v@, b);
            }
            return None;
        }
        if v[i] == b {
            proof {
                lemma_find_byte_from_parts(v@, b, i as int);
            }
            return Some(i);
        }
        i = i + 1;
    }
}

/// A copy of the bytes of `v` from `from` up to, but not including, `to`.
pub fn copy_range(v: &Vec<u8>, from: usize, to: usize) -> (r: Vec<u8>)
    requires
        from <= to <= v@.len(),
    ensures
        r@ == v@.subrange(from as int, to as int),
{
    let mut r: Vec<u8> = Vec::new();
    let mut i: usize = from;
    while i < to
        invariant
            from <= i <= to <= v@.len(),
            r@ == v@.subrange(from as int, i as int),
        decreases to - i,
    {
        r.push(v[i]);
        i = i + 1;
        proof {
            assert(r@ =~= v@.subrange(from as int, i as int));
        }
    }
    r
}

/// True when the two byte vectors hold the same bytes.
pub fn bytes_eq(a: &Vec<u8>, b: &Vec<u8>) -> (r: bool)
    ensures
        r == (a@ == b@),
{
    if a.len() != b.len() {
        return false;
    }
    let mut i: usize = 0;
    while i < a.len()
        invariant
            i <= a@.len(),
            a@.len() == b@.len(),
            forall|j: int| 0 <= j < i ==> a@[j] == b@[j],
        decreases a@.len() - i,
    {
        if a[i] != b[i] {
            return false;
        }
        i = i + 1;
    }
    proof {
        assert(a@ =~= b@);
    }
    true
}

/// True when `p` is a prefix of `v`.
pub fn starts_with_vec(v: &Vec<u8>, p: &Vec<u8>) -> (r: bool)
    ensures
        r == has_prefix(v@, p@),
{
    if p.len() > v.len() {
        return false;
    }
    let mut i: usize = 0;
    while i < p.len()
        invariant
            i <= p@.len() <= v@.len(),
            forall|j: int| 0 <= j < i ==> v@[j] == p@[j],
        decreases p@.len() - i,
    {
        if v[i] != p[i] {
            proof {
                assert(v@.subrange(0, p@.len() as int)[i as int] != p@[i as int]);
            }
            return false;
        }
        i = i + 1;
    }
    proof {
        assert(v@.subrange(0, p@.len() as int) =~= p@);
    }
    true
}

/// The value of a `Content-Length` header: a non-empty string of decimal
/// digits whose value fits in `usize`; anything else is refused.
pub fn parse_content_length_vec(v: &Vec<u8>) -> (r: Option<usize>)
    ensures
        match r {
            Some(n) => spec_content_length(v@) == Some(n as int),
            None => spec_content_length(v@) is None,
        },
{
    if v.len() == 0 {
        return None;
    }
    let mut acc: usize = 0;
    let mut i: usize = 0;
    while i < v.len()
        invariant
            i <= v@.len(),
            0 < v@.len(),
            forall|j: int| 0 <= j < i ==> is_digit(v@[j]),
            acc == dec_value(v@.subrange(0, i as int)),
        decreases v@.len() - i,
    {
        let b = v[i];
        if b < 48 || b > 57 {
            return None;
        }
        let d = (b - 48) as usize;
        if acc > (usize::MAX - d) / 10 {
            proof {
                let pre = v@.subrange(0, i as int + 1);
                assert(pre.drop_last() =~= v@.subrange(0, i as int));
                assert(dec_value(pre) == acc * 10 + d);
                assert(acc * 10 + d > usize::MAX) by (nonlinear_arith)
                    requires
                        acc > (usize::MAX - d) / 10,
                        d <= 9,
                {}
                if all_digits(v@) {
                    lemma_dec_value_monotone(v@, i as int + 1);
                }
            }
            return None;
        }
        proof {
            assert(acc * 10 + d <= usize::MAX) by (nonlinear_arith)
                requires
                    acc <= (usize::MAX - d) / 10,
                    d <= 9,
            {}
            let pre = v@.subrange(0, i as int + 1);
            assert(pre.drop_last() =~= v@.subrange(0, i as int));
            assert(dec_value(pre) == acc * 10 + d);
        }
        acc = acc * 10 + d;
        i = i + 1;
    }
    proof {
        assert(v@.subrange(0, v@.len() as int) =~= v@);
    }
    Some(acc)
}

/// A longer digit string never has a smaller value: the value of `s` is at
/// least the value of its first `k` digits.
proof fn lemma_dec_value_monotone(s: Seq<u8>, k: int)
    requires
        0 <= k <= s.len(),
        all_digits(s),
    ensures
        dec_value(s) >= dec_value(s.subrange(0, k)),
        dec_value(s) >= 0,
    decreases s.len() - k,
{
    lemma_dec_value_nonneg(s.subrange(0, k));
    if k == s.len() {
        assert(s.subrange(0, k) =~= s);
    } else {
        let pre = s.subrange(0, k);
        let nxt = s.subrange(0, k + 1);
        assert(nxt.drop_last() =~= pre);
        assert(is_digit(s[k]));
        lemma_dec_value_nonneg(pre);
        assert(dec_value(nxt) == dec_value(pre) * 10 + (s[k] - 48));
        assert(dec_value(pre) * 10 >= dec_value(pre)) by (nonlinear_arith)
            requires
                dec_value(pre) >= 0,
        {}
        lemma_dec_value_monotone(s, k + 1);
    }
}

/// A digit string never has a negative value.
proof fn lemma_dec_value_nonneg(s: Seq<u8>)
    requires
        all_digits(s),
    ensures
        dec_value(s) >= 0,
    decreases s.len(),
{
    if s.len() > 0 {
        assert(all_digits(s.drop_last())) by {
            assert(forall|j: int| 0 <= j < s.len() - 1 ==> is_digit(#[trigger] s.drop_last()[j]));
        }
        lemma_dec_value_nonneg(s.drop_last());
        assert(is_digit(s.last()));
        assert(dec_value(s.drop_last()) * 10 >= 0) by (nonlinear_arith)
            requires
                dec_value(s.drop_last()) >= 0,
        {}
    }
}

/// The suffix of `v` from its first non-space byte on; what
/// `drop_leading_spaces` keeps.
pub fn skip_leading_spaces(v: &Vec<u8>) -> (r: Vec<u8>)
    ensures
        r@ == crate::model::drop_leading_spaces(v@),
{
    let mut i: usize = 0;
    while i < v.len() && v[i] == SP
        invariant
            i <= v@.len(),
            forall|j: int| 0 <= j < i ==> v@[j] == SP,
        decreases v@.len() - i,
    {
        i = i + 1;
    }
    let r = copy_range(v, i, v.len());
    proof {
        lemma_drop_leading_spaces_at(v@, i as int);
    }
    r
}

/// `drop_leading_spaces` keeps exactly the suffix that begins at the first
/// non-space index.
proof fn lemma_drop_leading_spaces_at(s: Seq<u8>, k: int)
    requires
        0 <= k <= s.len(),
        forall|j: int| 0 <= j < k ==> s[j] == SP,
        k < s.len() ==> s[k] != SP,
    ensures
        crate::model::drop_leading_spaces(s) == s.subrange(k, s.len() as int),
    decreases s.len(),
{
    if k == 0 {
        if s.len() == 0 || s[0] != SP {
            assert(s.subrange(0, s.len() as int) =~= s);
        }
    } else {
        let t = s.subrange(1, s.len() as int);
        assert forall|j: int| 0 <= j < k - 1 implies t[j] == SP by {
            assert(s[j + 1] == SP);
        }
        lemma_drop_leading_spaces_at(t, k - 1);
        assert(t.subrange(k - 1, t.len() as int) =~= s.subrange(k, s.len() as int));
    }
}

} // verus!
