//! The match engine: whether two event titles name the same event.
use vstd::prelude::*;

use crate::normalize::{clean_competition_name, normalized};
use crate::similarity::{
    above, common_count, count_common_words, count_distinct_words, distinct_count, exceeds,
    lemma_common_count_bound, same_chars, similarity, similarity_chars,
};
use crate::text::{chars_of, contains_seq, is_sub, lower_of, lowercase, split_words, words};

verus! {

/// The larger of two lengths.
pub open spec fn max_len(a: nat, b: nat) -> nat {
    if a >= b {
        a
    } else {
        b
    }
}

/// The word-overlap rule: more than half of the longer word list has a common word, or the
/// common words are more than 0.4 of all distinct words.
pub open spec fn words_overlap(x: Seq<char>, y: Seq<char>) -> bool {
    let w1 = words(x);
    let w2 = words(y);
    let c = common_count(w1, w2, w1.len() as int);
    let m = max_len(w1.len(), w2.len());
    let d = distinct_count(w1 + w2, (w1.len() + w2.len()) as int);
    (m > 0 && 2 * c > m) || (d > 0 && 5 * c > 2 * d)
}

/// Two comparison keys (normalized, lower-cased) match: equal, one inside the other,
/// character similarity above 0.75, or enough common words.
pub open spec fn keys_match(x: Seq<char>, y: Seq<char>) -> bool {
    x == y || is_sub(y, x) || is_sub(x, y) || above(similarity(x, y), 3, 4) || words_overlap(x, y)
}

/// The comparison key of a title, in lower case.
pub open spec fn match_key(t: Seq<char>) -> Seq<char> {
    lower_of(normalized(t))
}

/// Two event titles name the same event.
pub open spec fn titles_match(a: Seq<char>, b: Seq<char>) -> bool {
    keys_match(match_key(a), match_key(b))
}

/// Decides whether two comparison keys match, by the rules in order.
pub fn match_keys(x: &str, y: &str) -> (r: bool)
    ensures
        r == keys_match(x@, y@),
{
    let a = chars_of(x);
    let b = chars_of(y);
    if same_chars(&a, &b) {
        return true;
    }
    if contains_seq(&a, &b) || contains_seq(&b, &a) {
        return true;
    }
    if exceeds(similarity_chars(&a, &b), 3, 4) {
        return true;
    }
    let w1 = split_words(&a);
    let w2 = split_words(&b);
    let common = count_common_words(&w1, &w2);
    proof {
        lemma_common_count_bound(w1.deep_view(), w2.deep_view(), w1.len() as int);
    }
    let longest = if w1.len() >= w2.len() {
        w1.len()
    } else {
        w2.len()
    };
    if longest > 0 && (common as u128) * 2 > longest as u128 {
        return true;
    }
    let mut all: Vec<Vec<char>> = Vec::new();
    let mut i: usize = 0;
    while i < w1.len()
        invariant
            i <= w1.len(),
            all.deep_view() == w1.deep_view().take(i as int),
        decreases w1.len() - i,
    {
        let ghost before = all.deep_view();
        all.push(w1[i].clone());
        assert(all.deep_view() =~= before.push(w1@[i as int]@)) by {
            assert(all@.last().deep_view() =~= w1@[i as int]@);
        }
        assert(w1.deep_view()[i as int] =~= w1@[i as int]@);
        assert(before.push(w1@[i as int]@) =~= w1.deep_view().take(i as int + 1));
        i = i + 1;
    }
    let mut j: usize = 0;
    while j < w2.len()
        invariant
            j <= w2.len(),
            all.deep_view() == w1.deep_view() + w2.deep_view().take(j as int),
        decreases w2.len() - j,
    {
        proof {
            assert(w1.deep_view().take(w1.len() as int) =~= w1.deep_view());
        }
        let ghost before = all.deep_view();
        all.push(w2[j].clone());
        assert(all.deep_view() =~= before.push(w2@[j as int]@)) by {
            assert(all@.last().deep_view() =~= w2@[j as int]@);
        }
        assert(w2.deep_view()[j as int] =~= w2@[j as int]@);
        assert(before.push(w2@[j as int]@) =~= w1.deep_view() + w2.deep_view().take(j as int + 1));
        j = j + 1;
    }
    proof {
        assert(w1.deep_view().take(w1.len() as int) =~= w1.deep_view());
        assert(w2.deep_view().take(w2.len() as int) =~= w2.deep_view());
    }
    let distinct = count_distinct_words(&all);
    if distinct > 0 && (common as u128) * 5 > (distinct as u128) * 2 {
        return true;
    }
    false
}

/// Decides whether two event titles name the same event: their comparison keys are compared
/// case-insensitively by equality, containment, character similarity and word overlap.
pub fn fuzzy_match(name1: &str, name2: &str) -> (r: bool)
    ensures
        r == titles_match(name1@, name2@),
        normalized(name1@).len() == 0 || normalized(name2@).len() == 0 ==> r,
{
    let n1 = clean_competition_name(name1);
    let n2 = clean_competition_name(name2);
    let l1 = lowercase(n1.as_str());
    let l2 = lowercase(n2.as_str());
    proof {
        if l1@.len() == 0 {
            assert(l2@.subrange(0, 0 + l1@.len() as int) =~= l1@);
            assert(is_sub(l1@, l2@));
        }
        if l2@.len() == 0 {
            assert(l1@.subrange(0, 0 + l2@.len() as int) =~= l2@);
            assert(is_sub(l2@, l1@));
        }
    }
    match_keys(l1.as_str(), l2.as_str())
}

} // verus!
