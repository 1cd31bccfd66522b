//! Character-set and word-overlap similarity between comparison keys.
use vstd::prelude::*;

use crate::text::{contains_seq, is_sub};

verus! {

/// A similarity score `num / den`, with `den > 0` and `num <= den`.
#[derive(Clone, Copy, Debug, PartialEq, Eq, Structural)]
pub struct Ratio {
    pub num: usize,
    pub den: usize,
}

/// The number of distinct characters among the first `n` characters of `a` that also occur
/// in `b`: each character is counted at its first occurrence.
pub open spec fn common_distinct(a: Seq<char>, b: Seq<char>, n: int) -> nat
    decreases n,
{
    if n <= 0 {
        0
    } else {
        common_distinct(a, b, n - 1) + if !a.take(n - 1).contains(a[n - 1]) && b.contains(
            a[n - 1],
        ) {
            1nat
        } else {
            0nat
        }
    }
}

/// The character-set overlap of `a` with `b`, as a pair (numerator, denominator): the
/// distinct characters of `a` found in `b`, over the longer length. Two equal strings score
/// one, and an empty string against a non-empty one scores zero.
pub open spec fn similarity(a: Seq<char>, b: Seq<char>) -> (nat, nat) {
    if a.len() == 0 && b.len() == 0 {
        (1, 1)
    } else if a.len() == 0 || b.len() == 0 {
        (0, 1)
    } else if a == b {
        (1, 1)
    } else {
        (common_distinct(a, b, a.len() as int), if a.len() >= b.len() {
            a.len()
        } else {
            b.len()
        })
    }
}

/// The score `s` exceeds `p / q`.
pub open spec fn above(s: (nat, nat), p: nat, q: nat) -> bool {
    s.0 * q > p * s.1
}

/// Two words count as common: both longer than two characters, and equal, one inside the
/// other, or of similarity above 0.7.
pub open spec fn word_common(w1: Seq<char>, w2: Seq<char>) -> bool {
    w1.len() > 2 && w2.len() > 2 && (w1 == w2 || is_sub(w2, w1) || is_sub(w1, w2) || above(
        similarity(w1, w2),
        7,
        10,
    ))
}

pub open spec fn has_partner(w: Seq<char>, ws: Seq<Seq<char>>) -> bool {
    exists|j: int| 0 <= j < ws.len() && #[trigger] word_common(w, ws[j])
}

/// How many of the first `n` words of `ws1` have a common word in `ws2`.
pub open spec fn common_count(ws1: Seq<Seq<char>>, ws2: Seq<Seq<char>>, n: int) -> nat
    decreases n,
{
    if n <= 0 {
        0
    } else {
        common_count(ws1, ws2, n - 1) + if has_partner(ws1[n - 1], ws2) {
            1nat
        } else {
            0nat
        }
    }
}

/// How many distinct words there are among the first `n` of `ws`.
pub open spec fn distinct_count(ws: Seq<Seq<char>>, n: int) -> nat
    decreases n,
{
    if n <= 0 {
        0
    } else {
        distinct_count(ws, n - 1) + if !ws.take(n - 1).contains(ws[n - 1]) {
            1nat
        } else {
            0nat
        }
    }
}

pub proof fn lemma_common_count_bound(ws1: Seq<Seq<char>>, ws2: Seq<Seq<char>>, n: int)
    requires
        0 <= n,
    ensures
        common_count(ws1, ws2, n) <= n,
    decreases n,
{
    if n > 0 {
        lemma_common_count_bound(ws1, ws2, n - 1);
    }
}

/// Whether `c` is among the first `n` characters of `v`.
fn has_char(v: &Vec<char>, n: usize, c: char) -> (r: bool)
    requires
        n <= v.len(),
    ensures
        r == v@.take(n as int).contains(c),
{
    let mut k: usize = 0;
    while k < n
        invariant
            k <= n <= v.len(),
            forall|j: int| 0 <= j < k ==> v@[j] != c,
        decreases n - k,
    {
        if v[k] == c {
            assert(v@.take(n as int)[k as int] == c);
            return true;
        }
        k = k + 1;
    }
    false
}

/// Whether two character sequences are equal.
pub fn same_chars(a: &Vec<char>, b: &Vec<char>) -> (r: bool)
    ensures
        r == (a@ == b@),
{
    if a.len() != b.len() {
        return false;
    }
    let mut k: usize = 0;
    while k < a.len()
        invariant
            k <= a.len(),
            a.len() == b.len(),
            forall|j: int| 0 <= j < k ==> a@[j] == b@[j],
        decreases a.len() - k,
    {
        if a[k] != b[k] {
            return false;
        }
        k = k + 1;
    }
    assert(a@ =~= b@);
    true
}

/// The character-set overlap similarity of two character sequences.
pub fn similarity_chars(a: &Vec<char>, b: &Vec<char>) -> (r: Ratio)
    ensures
        (r.num as nat, r.den as nat) == similarity(a@, b@),
        r.den > 0,
        r.num <= r.den,
{
    if a.len() == 0 && b.len() == 0 {
        return Ratio { num: 1, den: 1 };
    }
    if a.len() == 0 || b.len() == 0 {
        return Ratio { num: 0, den: 1 };
    }
    if same_chars(a, b) {
        return Ratio { num: 1, den: 1 };
    }
    let mut count: usize = 0;
    let mut i: usize = 0;
    while i < a.len()
        invariant
            i <= a.len(),
            count == common_distinct(a@, b@, i as int),
            count <= i,
        decreases a.len() - i,
    {
        assert(a@.take(i as int) =~= a@.take(i as int + 1 - 1));
        if !has_char(a, i, a[i]) && has_char(b, b.len(), a[i]) {
            count = count + 1;
        }
        proof {
            assert(b@.take(b.len() as int) =~= b@);
        }
        i = i + 1;
    }
    let den = if a.len() >= b.len() {
        a.len()
    } else {
        b.len()
    };
    Ratio { num: count, den }
}

/// The character-set overlap similarity of two strings: the distinct characters of `s1`
/// that occur in `s2`, over the longer length in characters.
pub fn calculate_similarity(s1: &str, s2: &str) -> (r: Ratio)
    ensures
        (r.num as nat, r.den as nat) == similarity(s1@, s2@),
{
    let a = crate::text::chars_of(s1);
    let b = crate::text::chars_of(s2);
    similarity_chars(&a, &b)
}

/// Whether the score exceeds `p / q`.
pub fn exceeds(s: Ratio, p: u8, q: u8) -> (r: bool)
    ensures
        r == above((s.num as nat, s.den as nat), p as nat, q as nat),
{
    proof {
        let (n, d) = (s.num as int, s.den as int);
        assert(n * (q as int) <= 0xffff_ffff_ffff_ffff * 255) by (nonlinear_arith)
            requires
                0 <= n <= 0xffff_ffff_ffff_ffff,
                0 <= q <= 255,
        ;
        assert((p as int) * d <= 255 * 0xffff_ffff_ffff_ffff) by (nonlinear_arith)
            requires
                0 <= d <= 0xffff_ffff_ffff_ffff,
                0 <= p <= 255,
        ;
    }
    (s.num as u128) * (q as u128) > (p as u128) * (s.den as u128)
}

proof fn lemma_push_contains(s: Seq<Seq<char>>, x: Seq<char>, y: Seq<char>)
    ensures
        s.push(x).contains(y) == (s.contains(y) || x == y),
{
    if s.contains(y) {
        let k = choose|k: int| 0 <= k < s.len() && s[k] == y;
        assert(s.push(x)[k] == y);
    }
    if x == y {
        assert(s.push(x)[s.len() as int] == y);
    }
    if s.push(x).contains(y) {
        let k = choose|k: int| 0 <= k < s.len() + 1 && s.push(x)[k] == y;
        if k < s.len() {
            assert(s[k] == y);
        }
    }
}

/// Whether two words count as common.
pub fn words_common(w1: &Vec<char>, w2: &Vec<char>) -> (r: bool)
    ensures
        r == word_common(w1@, w2@),
{
    if w1.len() <= 2 || w2.len() <= 2 {
        return false;
    }
    same_chars(w1, w2) || contains_seq(w1, w2) || contains_seq(w2, w1) || exceeds(
        similarity_chars(w1, w2),
        7,
        10,
    )
}

/// How many words of `ws1` have a common word in `ws2`.
pub fn count_common_words(ws1: &Vec<Vec<char>>, ws2: &Vec<Vec<char>>) -> (r: usize)
    ensures
        r == common_count(ws1.deep_view(), ws2.deep_view(), ws1.len() as int),
{
    let ghost d1 = ws1.deep_view();
    let ghost d2 = ws2.deep_view();
    let mut count: usize = 0;
    let mut i: usize = 0;
    while i < ws1.len()
        invariant
            i <= ws1.len(),
            d1 == ws1.deep_view(),
            d2 == ws2.deep_view(),
            count == common_count(d1, d2, i as int),
            count <= i,
        decreases ws1.len() - i,
    {
        assert(d1[i as int] =~= ws1@[i as int]@);
        let mut found = false;
        let mut j: usize = 0;
        while j < ws2.len()
            invariant
                i < ws1.len(),
                j <= ws2.len(),
                d1 == ws1.deep_view(),
                d2 == ws2.deep_view(),
                d1[i as int] == ws1@[i as int]@,
                found == exists|k: int| 0 <= k < j && #[trigger] word_common(d1[i as int], d2[k]),
            decreases ws2.len() - j,
        {
            assert(d2[j as int] =~= ws2@[j as int]@);
            if words_common(&ws1[i], &ws2[j]) {
                found = true;
            }
            j = j + 1;
        }
        if found {
            count = count + 1;
        }
        i = i + 1;
    }
    count
}

/// How many distinct words there are in `ws`.
pub fn count_distinct_words(ws: &Vec<Vec<char>>) -> (r: usize)
    ensures
        r == distinct_count(ws.deep_view(), ws.len() as int),
{
    let ghost d = ws.deep_view();
    let mut count: usize = 0;
    let mut i: usize = 0;
    while i < ws.len()
        invariant
            i <= ws.len(),
            d == ws.deep_view(),
            count == distinct_count(d, i as int),
            count <= i,
        decreases ws.len() - i,
    {
        let mut seen = false;
        let mut j: usize = 0;
        while j < i
            invariant
                i < ws.len(),
                j <= i,
                d == ws.deep_view(),
                seen == d.take(j as int).contains(d[i as int]),
            decreases i - j,
        {
            assert(d[j as int] =~= ws@[j as int]@);
            assert(d[i as int] =~= ws@[i as int]@);
            if same_chars(&ws[j], &ws[i]) {
                seen = true;
            }
            proof {
                assert(d.take(j as int + 1) =~= d.take(j as int).push(d[j as int]));
                lemma_push_contains(d.take(j as int), d[j as int], d[i as int]);
            }
            j = j + 1;
        }
        assert(d.take(i as int) =~= d.take(i as int + 1 - 1));
        if !seen {
            count = count + 1;
        }
        i = i + 1;
    }
    count
}

} // verus!
