//! Title normalization: the comparison key of an event title.
use vstd::prelude::*;

use crate::text::{
    chars_of, eq_str, is_word, is_ws, is_whitespace, join, join_words, lower_chars, lower_of,
    split_words, string_of, words,
};

verus! {

// The trailing source tag is the annotation the adapters append (` [HKU]`). Its grammar is
// the regular expression `\s*\[.*?\]\s*$`, written out below and matched by a verified
// scan instead of a regular-expression engine, so that normalization has an exact contract.

/// A source tag starts at `p`: whitespace from `p` to an opening bracket at `q`, a closing
/// bracket at `r` with no line break strictly between them, and only whitespace after `r`.
/// This is the pattern `\s*\[.*?\]\s*$` matched at `p`.
pub open spec fn tag_with(s: Seq<char>, p: int, q: int, r: int) -> bool {
    0 <= p <= q < r < s.len() && s[q] == '[' && s[r] == ']' && (forall|k: int|
        p <= k < q ==> is_ws(#[trigger] s[k])) && (forall|k: int| q < k < r ==> #[trigger] s[k]
        != '\n') && (forall|k: int| r < k < s.len() ==> is_ws(#[trigger] s[k]))
}

pub open spec fn tag_at(s: Seq<char>, p: int) -> bool {
    exists|q: int, r: int| #[trigger] tag_with(s, p, q, r)
}

/// `p` is the leftmost position where a source tag starts.
pub open spec fn first_tag(s: Seq<char>, p: int) -> bool {
    0 <= p && tag_at(s, p) && forall|p2: int| 0 <= p2 < p ==> !#[trigger] tag_at(s, p2)
}

/// The title without its trailing source tag (and the whitespace before it), if it has one.
pub open spec fn strip_tag(s: Seq<char>) -> Seq<char> {
    if exists|p: int| first_tag(s, p) {
        s.take(choose|p: int| first_tag(s, p))
    } else {
        s
    }
}

/// The words that normalization removes, compared in lower case.
pub open spec fn is_stop(w: Seq<char>) -> bool {
    w == "hku"@ || w == "ust"@ || w == "hkust"@ || w == "the"@ || w == "a"@ || w == "an"@ || w
        == "and"@ || w == "of"@ || w == "in"@ || w == "on"@ || w == "at"@ || w == "to"@ || w
        == "for"@ || w == "with"@ || w == "by"@ || w == "up"@ || w == "competition"@ || w
        == "case"@ || w == "challenge"@ || w == "hackathon"@ || w == "datathon"@ || w
        == "program"@ || w == "event"@ || w == "session"@ || w == "workshop"@ || w
        == "seminar"@ || w == "deadline"@ || w == "register"@ || w == "join"@ || w == "now"@
}

/// The words whose lower-case form is not a stop word, in order.
pub open spec fn kept(ws: Seq<Seq<char>>) -> Seq<Seq<char>>
    decreases ws.len(),
{
    if ws.len() == 0 {
        Seq::empty()
    } else if is_stop(lower_of(ws.last())) {
        kept(ws.drop_last())
    } else {
        kept(ws.drop_last()).push(ws.last())
    }
}

/// The comparison key of a title: tag stripped, stop words removed, words joined by
/// single spaces.
pub open spec fn normalized(t: Seq<char>) -> Seq<char> {
    join(kept(words(strip_tag(t))))
}

/// Whether a source tag starts at `p`.
fn tag_starts_at(s: &Vec<char>, p: usize) -> (r: bool)
    requires
        p <= s.len(),
    ensures
        r == tag_at(s@, p as int),
{
    let n = s.len();
    let mut q: usize = p;
    while q < n && is_whitespace(s[q])
        invariant
            p <= q <= n,
            n == s.len(),
            forall|k: int| p <= k < q ==> is_ws(#[trigger] s@[k]),
        decreases n - q,
    {
        q = q + 1;
    }
    if q >= n || s[q] != '[' {
        proof {
            if tag_at(s@, p as int) {
                let (q2, r2) = choose|q2: int, r2: int| tag_with(s@, p as int, q2, r2);
                if q2 > q {
                    assert(is_ws(s@[q as int]));
                }
            }
        }
        return false;
    }
    let mut e: usize = n;
    while e > q + 1 && is_whitespace(s[e - 1])
        invariant
            q < n,
            q + 1 <= e <= n,
            n == s.len(),
            forall|k: int| e <= k < n ==> is_ws(#[trigger] s@[k]),
        decreases e,
    {
        e = e - 1;
    }
    let ok = e > q + 1 && s[e - 1] == ']';
    if !ok {
        proof {
            if tag_at(s@, p as int) {
                let (q2, r2) = choose|q2: int, r2: int| tag_with(s@, p as int, q2, r2);
                if q2 > q {
                    assert(is_ws(s@[q as int]));
                }
                assert(q2 == q);
                if r2 >= e {
                    assert(is_ws(s@[r2]));
                }
                if r2 < e - 1 {
                    assert(is_ws(s@[e - 1]));
                }
            }
        }
        return false;
    }
    let r = e - 1;
    let mut k: usize = q + 1;
    while k < r
        invariant
            p <= q < k <= r,
            r == e - 1,
            e > q + 1,
            r < n,
            n == s.len(),
            s@[q as int] == '[',
            forall|j: int| p <= j < q ==> is_ws(#[trigger] s@[j]),
            forall|j: int| e <= j < n ==> is_ws(#[trigger] s@[j]),
            !is_ws(s@[e - 1]),
            forall|j: int| q < j < k ==> #[trigger] s@[j] != '\n',
        decreases r - k,
    {
        if s[k] == '\n' {
            proof {
                if tag_at(s@, p as int) {
                    let (q2, r2) = choose|q2: int, r2: int| tag_with(s@, p as int, q2, r2);
                    if q2 > q {
                        assert(is_ws(s@[q as int]));
                    }
                    assert(q2 == q);
                    if r2 >= e {
                        assert(is_ws(s@[r2]));
                    }
                    if r2 < e - 1 {
                        assert(is_ws(s@[e - 1]));
                    }
                    assert(s@[k as int] != '\n');
                }
            }
            return false;
        }
        k = k + 1;
    }
    assert(tag_with(s@, p as int, q as int, r as int));
    true
}

/// The title without its trailing source tag.
pub fn strip_source_tag(s: &Vec<char>) -> (r: Vec<char>)
    ensures
        r@ == strip_tag(s@),
{
    let n = s.len();
    let mut p: usize = 0;
    while p < n
        invariant
            p <= n,
            n == s.len(),
            forall|p2: int| 0 <= p2 < p ==> !#[trigger] tag_at(s@, p2),
        decreases n - p,
    {
        if tag_starts_at(s, p) {
            let mut out: Vec<char> = Vec::new();
            let mut k: usize = 0;
            while k < p
                invariant
                    k <= p < n,
                    n == s.len(),
                    out@ == s@.take(k as int),
                decreases p - k,
            {
                out.push(s[k]);
                k = k + 1;
                assert(out@ =~= s@.take(k as int));
            }
            proof {
                assert(first_tag(s@, p as int));
                let c = choose|c: int| first_tag(s@, c);
                if c < p {
                    assert(!tag_at(s@, c));
                }
                if c > p {
                    assert(!tag_at(s@, p as int));
                }
            }
            return out;
        }
        p = p + 1;
    }
    proof {
        if exists|c: int| first_tag(s@, c) {
            let c = choose|c: int| first_tag(s@, c);
            if c >= n {
                let (q2, r2) = choose|q2: int, r2: int| tag_with(s@, c, q2, r2);
            }
        }
    }
    let mut out: Vec<char> = Vec::new();
    let mut k: usize = 0;
    while k < n
        invariant
            k <= n,
            n == s.len(),
            out@ == s@.take(k as int),
        decreases n - k,
    {
        out.push(s[k]);
        k = k + 1;
        assert(out@ =~= s@.take(k as int));
    }
    assert(s@.take(n as int) =~= s@);
    out
}

/// Whether a lower-case word is one of the stop words.
pub fn is_stop_word(w: &Vec<char>) -> (r: bool)
    ensures
        r == is_stop(w@),
{
    eq_str(w, "hku") || eq_str(w, "ust") || eq_str(w, "hkust") || eq_str(w, "the") || eq_str(
        w,
        "a",
    ) || eq_str(w, "an") || eq_str(w, "and") || eq_str(w, "of") || eq_str(w, "in") || eq_str(
        w,
        "on",
    ) || eq_str(w, "at") || eq_str(w, "to") || eq_str(w, "for") || eq_str(w, "with") || eq_str(
        w,
        "by",
    ) || eq_str(w, "up") || eq_str(w, "competition") || eq_str(w, "case") || eq_str(
        w,
        "challenge",
    ) || eq_str(w, "hackathon") || eq_str(w, "datathon") || eq_str(w, "program") || eq_str(
        w,
        "event",
    ) || eq_str(w, "session") || eq_str(w, "workshop") || eq_str(w, "seminar") || eq_str(
        w,
        "deadline",
    ) || eq_str(w, "register") || eq_str(w, "join") || eq_str(w, "now")
}

/// The comparison key of a title, as characters.
pub fn normalize_chars(t: &Vec<char>) -> (r: Vec<char>)
    ensures
        r@ == normalized(t@),
{
    let stripped = strip_source_tag(t);
    let ws = split_words(&stripped);
    let mut keep: Vec<Vec<char>> = Vec::new();
    let mut i: usize = 0;
    while i < ws.len()
        invariant
            i <= ws.len(),
            keep.deep_view() == kept(ws.deep_view().take(i as int)),
        decreases ws.len() - i,
    {
        let lw = lower_chars(&ws[i]);
        let ghost pre = ws.deep_view().take(i as int + 1);
        assert(pre.drop_last() =~= ws.deep_view().take(i as int));
        assert(pre.last() == ws@[i as int].deep_view());
        assert(ws@[i as int].deep_view() =~= ws@[i as int]@);
        if !is_stop_word(&lw) {
            let ghost before = keep.deep_view();
            keep.push(ws[i].clone());
            assert(keep.deep_view() =~= before.push(ws@[i as int]@)) by {
                assert(keep@.last().deep_view() =~= ws@[i as int]@);
            }
        }
        i = i + 1;
    }
    assert(ws.deep_view().take(ws.len() as int) =~= ws.deep_view());
    join_words(&keep)
}

/// Normalizes an event title into its comparison key: strips a trailing bracketed source
/// tag, removes the stop words whatever their case, and collapses whitespace.
pub fn clean_competition_name(name: &str) -> (r: String)
    ensures
        r@ == normalized(name@),
{
    let t = chars_of(name);
    let n = normalize_chars(&t);
    string_of(&n)
}

proof fn lemma_kept_words(ws: Seq<Seq<char>>)
    requires
        forall|j: int| 0 <= j < ws.len() ==> is_word(#[trigger] ws[j]),
    ensures
        forall|j: int|
            0 <= j < kept(ws).len() ==> is_word(#[trigger] kept(ws)[j]) && !is_stop(
                lower_of(kept(ws)[j]),
            ),
    decreases ws.len(),
{
    if ws.len() > 0 {
        lemma_kept_words(ws.drop_last());
        assert(ws.last() == ws[ws.len() - 1]);
        let kd = kept(ws.drop_last());
        assert forall|j: int| 0 <= j < kept(ws).len() implies is_word(#[trigger] kept(ws)[j])
            && !is_stop(lower_of(kept(ws)[j])) by {
            if j < kd.len() {
                assert(kept(ws)[j] == kd[j]);
            }
        }
    }
}

proof fn lemma_kept_all(ws: Seq<Seq<char>>)
    requires
        forall|j: int| 0 <= j < ws.len() ==> !is_stop(lower_of(#[trigger] ws[j])),
    ensures
        kept(ws) == ws,
    decreases ws.len(),
{
    if ws.len() > 0 {
        lemma_kept_all(ws.drop_last());
        assert(ws.last() == ws[ws.len() - 1]);
        assert(ws.drop_last().push(ws.last()) =~= ws);
    }
}

proof fn lemma_words_append_word(a: Seq<char>, w: Seq<char>, k: int)
    requires
        is_word(w),
        1 <= k <= w.len(),
        a.len() == 0 || is_ws(a.last()),
    ensures
        words(a + w.take(k)) == words(a).push(w.take(k)),
    decreases k,
{
    let s = a + w.take(k);
    assert(s.last() == w[k - 1]);
    if k == 1 {
        assert(s.drop_last() =~= a);
        assert(w.take(1) =~= seq![w[0]]);
        if s.len() >= 2 {
            assert(s[s.len() - 2] == a.last());
        }
    } else {
        lemma_words_append_word(a, w, k - 1);
        assert(s.drop_last() =~= a + w.take(k - 1));
        assert(s[s.len() - 2] == w[k - 2]);
        let prev = words(a).push(w.take(k - 1));
        assert(w.take(k - 1).push(w[k - 1]) =~= w.take(k));
        assert(prev.update(prev.len() - 1, prev.last().push(w[k - 1])) =~= words(a).push(
            w.take(k),
        ));
    }
}

proof fn lemma_words_join(ws: Seq<Seq<char>>)
    requires
        forall|j: int| 0 <= j < ws.len() ==> is_word(#[trigger] ws[j]),
    ensures
        words(join(ws)) == ws,
    decreases ws.len(),
{
    if ws.len() == 0 {
        assert(words(Seq::<char>::empty()) =~= ws);
    } else if ws.len() == 1 {
        let w = ws[0];
        lemma_words_append_word(Seq::empty(), w, w.len() as int);
        assert(Seq::<char>::empty() + w.take(w.len() as int) =~= w);
        assert(words(Seq::<char>::empty()).push(w) =~= ws);
    } else {
        let j = join(ws.drop_last());
        lemma_words_join(ws.drop_last());
        let a = j + seq![' '];
        assert(a.drop_last() =~= j);
        assert(words(a) == words(j));
        let w = ws.last();
        assert(w == ws[ws.len() - 1]);
        lemma_words_append_word(a, w, w.len() as int);
        assert(w.take(w.len() as int) =~= w);
        assert(ws.drop_last().push(w) =~= ws);
    }
}

/// Normalizing twice gives the same key as normalizing once, for every title whose key does
/// not itself end in a bracketed tag (for those, the second pass strips that tag).
pub proof fn lemma_normalize_idempotent(t: Seq<char>)
    requires
        strip_tag(normalized(t)) == normalized(t),
    ensures
        normalized(normalized(t)) == normalized(t),
{
    let w = words(strip_tag(t));
    crate::text::lemma_words_are_words(strip_tag(t));
    lemma_kept_words(w);
    let k = kept(w);
    lemma_words_join(k);
    lemma_kept_all(k);
}

} // verus!
