//! Byte-level text helpers: substring occurrence, byte search, line
//! splitting, and appending.
//!
//! All template and source text is handled as UTF-8 bytes; the specs below
//! are the vocabulary the rest of the crate's contracts are written in.

use vstd::prelude::*;

verus! {

/// The pattern `pat` occurs in `text` at position `i`.
pub open spec fn is_at(text: Seq<u8>, pat: Seq<u8>, i: int) -> bool {
    0 <= i && i + pat.len() <= text.len() && text.subrange(i, i + pat.len() as int) == pat
}

/// `pat` occurs nowhere in `text` at or after position `from`.
pub open spec fn none_at_or_after(text: Seq<u8>, pat: Seq<u8>, from: int) -> bool {
    forall|k: int| from <= k ==> !is_at(text, pat, k)
}

/// `pat` occurs exactly once in `text`, at position `i`.
pub open spec fn only_at(text: Seq<u8>, pat: Seq<u8>, i: int) -> bool {
    is_at(text, pat, i) && forall|k: int| is_at(text, pat, k) ==> k == i
}

/// Whether `text[i..i + pat.len()] == pat`, checked byte by byte.
pub fn match_at(text: &[u8], pat: &[u8], i: usize) -> (r: bool)
    requires
        i + pat@.len() <= text@.len(),
    ensures
        r == is_at(text@, pat@, i as int),
{
    let n = pat.len();
    let tn = text.len();
    let mut k: usize = 0;
    while k < n
        invariant
            k <= n,
            n == pat@.len(),
            tn == text@.len(),
            i + n <= tn,
            forall|m: int| 0 <= m < k ==> text@[i + m] == pat@[m],
        decreases n - k,
    {
        if text[i + k] != pat[k] {
            assert(text@.subrange(i as int, i + n as int)[k as int] != pat@[k as int]);
            return false;
        }
        k += 1;
    }
    assert(text@.subrange(i as int, i + n as int) =~= pat@);
    true
}

/// First occurrence of `pat` in `text` at or after `from`, if any.
pub fn find_from(text: &[u8], pat: &[u8], from: usize) -> (r: Option<usize>)
    ensures
        match r {
            Some(i) => from <= i && is_at(text@, pat@, i as int) && forall|k: int|
                from <= k < i ==> !is_at(text@, pat@, k),
            None => none_at_or_after(text@, pat@, from as int),
        },
{
    if pat.len() > text.len() {
        return None;
    }
    if pat.len() == 0 {
        if from <= text.len() {
            assert(text@.subrange(from as int, from as int) =~= pat@);
            return Some(from);
        }
        return None;
    }
    let tn = text.len();
    let last = tn - pat.len();
    let mut i: usize = from;
    while i <= last
        invariant
            from <= i,
            tn == text@.len(),
            0 < pat@.len() <= text@.len(),
            last == text@.len() - pat@.len(),
            forall|k: int| from <= k < i ==> !is_at(text@, pat@, k),
        decreases last + 1 - i,
    {
        if match_at(text, pat, i) {
            return Some(i);
        }
        i += 1;
    }
    assert forall|k: int| from <= k implies !is_at(text@, pat@, k) by {
        if k <= last {
            assert(!is_at(text@, pat@, k));
        }
    }
    None
}

/// First occurrence of the byte `b` in `text` at or after `from`, if any.
pub fn find_byte_from(text: &[u8], b: u8, from: usize) -> (r: Option<usize>)
    ensures
        match r {
            Some(i) => from <= i < text@.len() && text@[i as int] == b && forall|k: int|
                from <= k < i ==> text@[k] != b,
            None => forall|k: int| from <= k < text@.len() ==> text@[k] != b,
        },
{
    let n = text.len();
    let mut i: usize = from;
    while i < n
        invariant
            from <= i,
            n == text@.len(),
            forall|k: int| from <= k < i ==> text@[k] != b,
        decreases n - i,
    {
        if text[i] == b {
            return Some(i);
        }
        i += 1;
    }
    None
}

/// Last occurrence of the byte `b` in `text` strictly before `before`, if any.
pub fn rfind_byte_before(text: &[u8], b: u8, before: usize) -> (r: Option<usize>)
    requires
        before <= text@.len(),
    ensures
        match r {
            Some(i) => i < before && text@[i as int] == b && forall|k: int|
                i < k < before ==> text@[k] != b,
            None => forall|k: int| 0 <= k < before ==> text@[k] != b,
        },
{
    let mut i: usize = before;
    while i > 0
        invariant
            i <= before <= text@.len(),
            forall|k: int| i <= k < before ==> text@[k] != b,
        decreases i,
    {
        i -= 1;
        if text[i] == b {
            return Some(i);
        }
    }
    None
}

/// Copies `text[a..b]` into a fresh vector.
pub fn copy_range(text: &[u8], a: usize, b: usize) -> (r: Vec<u8>)
    requires
        a <= b <= text@.len(),
    ensures
        r@ == text@.subrange(a as int, b as int),
{
    let mut r: Vec<u8> = Vec::new();
    let mut k: usize = a;
    while k < b
        invariant
            a <= k <= b <= text@.len(),
            r@ =~= text@.subrange(a as int, k as int),
        decreases b - k,
    {
        r.push(text[k]);
        proof {
            assert(r@ =~= text@.subrange(a as int, k + 1));
        }
        k += 1;
    }
    r
}

/// Appends all of `src` to `out`.
pub fn push_all(out: &mut Vec<u8>, src: &[u8])
    ensures
        final(out)@ == old(out)@ + src@,
{
    let n = src.len();
    let mut k: usize = 0;
    while k < n
        invariant
            k <= n,
            n == src@.len(),
            out@ == old(out)@ + src@.subrange(0, k as int),
        decreases n - k,
    {
        out.push(src[k]);
        assert(out@ =~= old(out)@ + src@.subrange(0, k + 1));
        k += 1;
    }
    assert(out@ =~= old(out)@ + src@);
}

} // verus!
