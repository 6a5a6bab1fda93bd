//! Verified byte-level text helpers for the dictionary format: trimming,
//! splitting on a separator byte, and reading small decimal numbers.

use vstd::prelude::*;

verus! {

/// The ASCII whitespace bytes the dictionary format ignores.
pub open spec fn spec_is_ws(b: u8) -> bool {
    b == 32 || b == 9 || b == 13 || b == 10
}

/// Whether the byte is dictionary whitespace.
pub fn is_ws(b: u8) -> (r: bool)
    ensures
        r == spec_is_ws(b),
{
    b == 32 || b == 9 || b == 13 || b == 10
}

/// The bytes with leading and trailing whitespace dropped.
pub open spec fn spec_trim_bytes(s: Seq<u8>) -> Seq<u8>
    decreases s.len(),
{
    if s.len() > 0 && spec_is_ws(s[0]) {
        spec_trim_bytes(s.drop_first())
    } else if s.len() > 0 && spec_is_ws(s[s.len() - 1]) {
        spec_trim_bytes(s.drop_last())
    } else {
        s
    }
}

/// A subrange whose outside is all whitespace and whose edges are not is
/// the trimmed sequence.
proof fn lemma_trim_bytes_subrange(s: Seq<u8>, a: int, b: int)
    requires
        0 <= a <= b <= s.len(),
        forall|i: int| 0 <= i < a ==> spec_is_ws(#[trigger] s[i]),
        forall|i: int| b <= i < s.len() ==> spec_is_ws(#[trigger] s[i]),
        a < b ==> !spec_is_ws(s[a]) && !spec_is_ws(s[b - 1]),
    ensures
        spec_trim_bytes(s) == s.subrange(a, b),
    decreases s.len(),
{
    if s.len() == 0 {
        assert(s.subrange(0, 0) =~= s);
    } else if spec_is_ws(s[0]) {
        let d = s.drop_first();
        if a > 0 {
            lemma_trim_bytes_subrange(d, a - 1, b - 1);
            assert(d.subrange(a - 1, b - 1) =~= s.subrange(a, b));
        } else {
            // the left edge is whitespace, so the kept range is empty
            assert(b == 0);
            lemma_trim_bytes_subrange(d, 0, 0);
            assert(d.subrange(0, 0) =~= s.subrange(0, 0));
        }
    } else if spec_is_ws(s[s.len() - 1]) {
        let d = s.drop_last();
        assert(a == 0);
        assert(b < s.len());
        lemma_trim_bytes_subrange(d, a, b);
        assert(d.subrange(a, b) =~= s.subrange(a, b));
    } else {
        assert(a == 0);
        assert(b == s.len());
        assert(s.subrange(0, s.len() as int) =~= s);
    }
}

/// The trimmed range of a byte slice: start and end of what remains after
/// dropping whitespace on both sides.
pub fn trim_bytes(s: &[u8]) -> (r: (usize, usize))
    ensures
        r.0 <= r.1 <= s@.len(),
        spec_trim_bytes(s@) == s@.subrange(r.0 as int, r.1 as int),
{
    let n = s.len();
    let mut a: usize = 0;
    while a < n && is_ws(s[a])
        invariant
            a <= n,
            n == s@.len(),
            forall|i: int| 0 <= i < a ==> spec_is_ws(#[trigger] s@[i]),
        decreases n - a,
    {
        a = a + 1;
    }
    let mut b: usize = n;
    while b > a && is_ws(s[b - 1])
        invariant
            a <= b <= n,
            n == s@.len(),
            forall|i: int| b <= i < n ==> spec_is_ws(#[trigger] s@[i]),
        decreases b,
    {
        b = b - 1;
    }
    proof {
        lemma_trim_bytes_subrange(s@, a as int, b as int);
    }
    (a, b)
}

/// The position of the first occurrence of `sep`, or the length when there
/// is none.
pub open spec fn spec_find(s: Seq<u8>, sep: u8) -> int
    decreases s.len(),
{
    if s.len() == 0 {
        0
    } else if s[0] == sep {
        0
    } else {
        1 + spec_find(s.drop_first(), sep)
    }
}

/// The found position lies in range, carries the separator when inside,
/// and nothing before it does.
pub proof fn lemma_find_bounds(s: Seq<u8>, sep: u8)
    ensures
        0 <= spec_find(s, sep) <= s.len(),
        spec_find(s, sep) < s.len() ==> s[spec_find(s, sep)] == sep,
        forall|i: int| 0 <= i < spec_find(s, sep) ==> #[trigger] s[i] != sep,
    decreases s.len(),
{
    if s.len() > 0 && s[0] != sep {
        lemma_find_bounds(s.drop_first(), sep);
        assert forall|i: int| 0 <= i < spec_find(s, sep) implies #[trigger] s[i] != sep by {
            if i >= 1 {
                assert(s.drop_first()[i - 1] != sep);
                assert(s.drop_first()[i - 1] == s[i]);
            }
        }
    }
}

/// A position preceded by no separator, and holding one or closing the
/// sequence, is the found position.
pub proof fn lemma_find_at(s: Seq<u8>, sep: u8, k: int)
    requires
        0 <= k <= s.len(),
        forall|i: int| 0 <= i < k ==> #[trigger] s[i] != sep,
        k < s.len() ==> s[k] == sep,
    ensures
        spec_find(s, sep) == k,
    decreases s.len(),
{
    if s.len() > 0 && s[0] != sep {
        lemma_find_at(s.drop_first(), sep, k - 1);
    }
}

/// The segments between occurrences of `sep`, in order: one more segment
/// than there are separators, all separator-free, and joined by `sep` they
/// give the sequence back.
pub open spec fn spec_split_bytes(s: Seq<u8>, sep: u8) -> Seq<Seq<u8>>
    decreases s.len(),
    via spec_split_bytes_decreases
{
    let f = spec_find(s, sep);
    if f == s.len() {
        seq![s]
    } else {
        seq![s.take(f)] + spec_split_bytes(s.skip(f + 1), sep)
    }
}

#[via_fn]
proof fn spec_split_bytes_decreases(s: Seq<u8>, sep: u8) {
    lemma_find_bounds(s, sep);
}

/// The views of a list of byte vectors.
pub open spec fn spec_u8_views(v: Seq<Vec<u8>>) -> Seq<Seq<u8>> {
    v.map_values(|b: Vec<u8>| b@)
}

/// The segments of a byte slice between occurrences of `sep`.
pub fn split_bytes(s: &[u8], sep: u8) -> (r: Vec<Vec<u8>>)
    ensures
        spec_u8_views(r@) == spec_split_bytes(s@, sep),
        r@.len() >= 1,
{
    let n = s.len();
    let mut parts: Vec<Vec<u8>> = Vec::new();
    let mut cur: Vec<u8> = Vec::new();
    let mut cs: usize = 0;
    let mut i: usize = 0;
    proof {
        assert(s@.skip(0) =~= s@);
    }
    while i < n
        invariant
            cs <= i <= n,
            n == s@.len(),
            cur@ =~= s@.subrange(cs as int, i as int),
            forall|j: int| cs <= j < i ==> #[trigger] s@[j] != sep,
            spec_split_bytes(s@, sep) == spec_u8_views(parts@) + spec_split_bytes(
                s@.skip(cs as int),
                sep,
            ),
        decreases n - i,
    {
        if s[i] == sep {
            proof {
                let tail = s@.skip(cs as int);
                assert(forall|j: int|
                    0 <= j < i - cs ==> #[trigger] tail[j] == s@[cs + j] && tail[j] != sep);
                lemma_find_at(tail, sep, i - cs);
                lemma_find_bounds(tail, sep);
                assert(tail.take(i - cs) =~= s@.subrange(cs as int, i as int));
                assert(tail.skip(i - cs + 1) =~= s@.skip(i + 1));
                assert(spec_split_bytes(tail, sep) == seq![cur@] + spec_split_bytes(
                    s@.skip(i + 1),
                    sep,
                ));
            }
            let ghost old_parts = parts@;
            parts.push(cur);
            proof {
                assert(spec_u8_views(parts@) =~= spec_u8_views(old_parts) + seq![cur@]);
                assert((spec_u8_views(old_parts) + seq![cur@]) + spec_split_bytes(
                    s@.skip(i + 1),
                    sep,
                ) =~= spec_u8_views(old_parts) + (seq![cur@] + spec_split_bytes(
                    s@.skip(i + 1),
                    sep,
                )));
            }
            cur = Vec::new();
            cs = i + 1;
            proof {
                assert(cur@ =~= s@.subrange(cs as int, cs as int));
            }
        } else {
            cur.push(s[i]);
            proof {
                assert(cur@ =~= s@.subrange(cs as int, i + 1));
            }
        }
        i = i + 1;
    }
    proof {
        let tail = s@.skip(cs as int);
        assert(forall|j: int| 0 <= j < tail.len() ==> #[trigger] tail[j] == s@[cs + j]);
        lemma_find_at(tail, sep, n - cs);
        assert(tail =~= s@.subrange(cs as int, n as int));
        assert(spec_split_bytes(tail, sep) == seq![tail]);
    }
    let ghost old_parts = parts@;
    let ghost last = cur@;
    parts.push(cur);
    proof {
        assert(spec_u8_views(parts@) =~= spec_u8_views(old_parts) + seq![last]);
        assert(spec_u8_views(old_parts) + seq![last] =~= spec_split_bytes(s@, sep));
    }
    parts
}

/// Whether every byte is an ASCII decimal digit.
pub open spec fn spec_all_digits(s: Seq<u8>) -> bool {
    forall|i: int| 0 <= i < s.len() ==> 48 <= #[trigger] s[i] <= 57
}

/// The number the decimal digits denote, most significant first.
pub open spec fn spec_dec_value(s: Seq<u8>) -> int
    decreases s.len(),
{
    if s.len() == 0 {
        0
    } else {
        spec_dec_value(s.drop_last()) * 10 + (s.last() - 48)
    }
}

/// A digit sequence's value never shrinks as digits are appended.
proof fn lemma_dec_value_nonneg(s: Seq<u8>)
    requires
        spec_all_digits(s),
    ensures
        spec_dec_value(s) >= 0,
    decreases s.len(),
{
    if s.len() > 0 {
        assert(spec_all_digits(s.drop_last()));
        lemma_dec_value_nonneg(s.drop_last());
    }
}

/// A small decimal number read from bytes: rejects empty input, any
/// non-digit byte, and values beyond a byte's range.
pub fn parse_u8_bytes(s: &[u8]) -> (r: Option<u8>)
    ensures
        r is Some <==> (s@.len() >= 1 && spec_all_digits(s@) && spec_dec_value(s@) <= 255),
        r matches Some(v) ==> v == spec_dec_value(s@),
{
    let n = s.len();
    if n == 0 {
        return None;
    }
    // acc tracks the value, saturated at 256 once the range is exceeded
    let mut acc: u32 = 0;
    let mut i: usize = 0;
    while i < n
        invariant
            i <= n,
            n == s@.len(),
            spec_all_digits(s@.take(i as int)),
            spec_dec_value(s@.take(i as int)) <= 255 ==> acc == spec_dec_value(s@.take(i as int)),
            spec_dec_value(s@.take(i as int)) > 255 ==> acc == 256,
            acc <= 256,
        decreases n - i,
    {
        let b = s[i];
        if b < 48 || b > 57 {
            return None;
        }
        proof {
            assert(s@.take(i + 1).drop_last() =~= s@.take(i as int));
            assert(s@.take(i + 1).last() == s@[i as int]);
            assert(spec_all_digits(s@.take(i + 1)));
            lemma_dec_value_nonneg(s@.take(i as int));
        }
        let d = (b - 48) as u32;
        if acc >= 256 {
            acc = 256;
        } else {
            let next = acc * 10 + d;
            acc = if next > 255 {
                256
            } else {
                next
            };
        }
        i = i + 1;
    }
    proof {
        assert(s@.take(n as int) =~= s@);
    }
    if acc > 255 {
        None
    } else {
        Some(acc as u8)
    }
}

/// A fresh copy of the byte range.
pub fn copy_range(s: &[u8], a: usize, b: usize) -> (r: Vec<u8>)
    requires
        a <= b <= s@.len(),
    ensures
        r@ == s@.subrange(a as int, b as int),
{
    let mut out: Vec<u8> = Vec::new();
    let mut i: usize = a;
    while i < b
        invariant
            a <= i <= b <= s@.len(),
            out@ =~= s@.subrange(a as int, i as int),
        decreases b - i,
    {
        out.push(s[i]);
        proof {
            assert(out@ =~= s@.subrange(a as int, i + 1));
        }
        i = i + 1;
    }
    out
}

} // verus!
