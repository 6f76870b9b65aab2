use vstd::prelude::*;
use vstd::string::*;

use crate::counting::WordCounts;
use crate::edits::edits1;
use crate::edits::edits2;
use crate::edits::is_edit1;
use crate::edits::is_edit2;
use crate::wordset::WordSet;

verus! {

/// The count the table records for `w`, or zero if `w` is not recorded: the
/// numerator of the probability estimate.
pub open spec fn freq(t: WordCounts, w: Seq<char>) -> usize {
    if t@.contains_key(w) {
        t@[w]
    } else {
        0
    }
}

/// Strict lexicographic order on character sequences, by code point.
pub open spec fn str_lt(a: Seq<char>, b: Seq<char>) -> bool
    decreases b.len(),
{
    b.len() > 0 && (a.len() == 0 || a[0] < b[0] || (a[0] == b[0] && str_lt(
        a.drop_first(),
        b.drop_first(),
    )))
}

pub open spec fn str_le(a: Seq<char>, b: Seq<char>) -> bool {
    a == b || str_lt(a, b)
}

/// `str_lt` is a strict total order: any two sequences are equal or ordered,
/// and never ordered both ways.
pub proof fn lemma_str_lt_total(a: Seq<char>, b: Seq<char>)
    ensures
        a == b || str_lt(a, b) || str_lt(b, a),
        !(str_lt(a, b) && str_lt(b, a)),
    decreases b.len(),
{
    if a.len() == 0 && b.len() == 0 {
        assert(a =~= b);
    } else if a.len() > 0 && b.len() > 0 && a[0] == b[0] {
        lemma_str_lt_total(a.drop_first(), b.drop_first());
        if a.drop_first() == b.drop_first() {
            assert(a =~= b) by {
                assert(forall|i: int|
                    1 <= i < a.len() ==> a[i] == a.drop_first()[i - 1] && b[i] == b.drop_first()[i
                        - 1]);
            }
        }
    }
}

/// `str_lt` is transitive.
pub proof fn lemma_str_lt_trans(a: Seq<char>, b: Seq<char>, c: Seq<char>)
    requires
        str_lt(a, b),
        str_lt(b, c),
    ensures
        str_lt(a, c),
    decreases c.len(),
{
    if a.len() > 0 && b.len() > 0 && a[0] == b[0] && b[0] == c[0] {
        lemma_str_lt_trans(a.drop_first(), b.drop_first(), c.drop_first());
    }
}

/// Whether `a` comes strictly before `b` in lexicographic order.
fn lex_lt(a: &str, b: &str) -> (r: bool)
    ensures
        r == str_lt(a@, b@),
    decreases b@.len(),
{
    let bn = b.unicode_len();
    if bn == 0 {
        return false;
    }
    let an = a.unicode_len();
    if an == 0 {
        return true;
    }
    let ca = a.get_char(0);
    let cb = b.get_char(0);
    if ca < cb {
        true
    } else if cb < ca {
        false
    } else {
        let r = lex_lt(a.substring_char(1, an), b.substring_char(1, bn));
        proof {
            assert(a@.subrange(1, an as int) =~= a@.drop_first());
            assert(b@.subrange(1, bn as int) =~= b@.drop_first());
        }
        r
    }
}

/// The subset of `words` that are recorded in the table: always a subset of
/// `words` and of the table's vocabulary.
pub fn known(words: &WordSet, counts: &WordCounts) -> (r: WordSet)
    ensures
        forall|e: Seq<char>|
            #[trigger] r@.contains(e) <==> (words@.contains(e) && counts@.contains_key(e)),
        forall|e: Seq<char>| #[trigger] r@.contains(e) ==> words@.contains(e),
        forall|e: Seq<char>| #[trigger] r@.contains(e) ==> counts@.contains_key(e),
{
    let mut known_words = WordSet::new();
    let n = words.len();
    let mut i: usize = 0;
    while i < n
        invariant
            n == words@.len(),
            0 <= i <= n,
            forall|e: Seq<char>|
                #[trigger] known_words@.contains(e) <==> ((exists|j: int|
                    0 <= j < i && e == words@[j]) && counts@.contains_key(e)),
        decreases n - i,
    {
        let w = words.get(i);
        let ghost prev = known_words@;
        if counts.contains_key(w) {
            known_words.insert(w.clone());
        }
        proof {
            assert forall|e: Seq<char>| #[trigger] known_words@.contains(e) <==> ((exists|j: int|
                0 <= j < i + 1 && e == words@[j]) && counts@.contains_key(e)) by {
                if known_words@.contains(e) && !prev.contains(e) {
                    assert(e == words@[i as int]);
                }
                if !known_words@.contains(e) && counts@.contains_key(e) {
                    if exists|j: int| 0 <= j < i + 1 && e == words@[j] {
                        let j = choose|j: int| 0 <= j < i + 1 && e == words@[j];
                        if j < i {
                            assert(prev.contains(e));
                        }
                        assert(false);
                    }
                }
            }
        }
        i += 1;
    }
    proof {
        assert forall|e: Seq<char>| #[trigger] known_words@.contains(e) <==> (words@.contains(e)
            && counts@.contains_key(e)) by {
            if words@.contains(e) {
                let j = choose|j: int| 0 <= j < words@.len() && words@[j] == e;
                assert(exists|jj: int| 0 <= jj < n && e == words@[jj]);
            }
        }
    }
    known_words
}

/// The probability estimate for `word`: its recorded count over the number of
/// distinct recorded words, as a (numerator, denominator) pair.  A word that
/// is not recorded has probability zero, returned as (0, 1).
pub fn word_probability(word: &str, counts: &WordCounts) -> (r: (usize, usize))
    requires
        counts.wf(),
    ensures
        counts@.contains_key(word@) ==> r.0 == counts@[word@] && r.1 == counts.num_words(),
        !counts@.contains_key(word@) ==> r.0 == 0 && r.1 == 1,
{
    match counts.get(&word.to_owned()) {
        Some(count) => (count, counts.len()),
        None => (0, 1),
    }
}

/// The tiered fallback policy: the candidates for `w` are `w` itself if it is
/// recorded; otherwise the recorded words among its single edits, if any;
/// otherwise the recorded words among its two-step edits, if any; otherwise
/// `w` unchanged.
pub open spec fn is_candidate(w: Seq<char>, t: WordCounts, e: Seq<char>) -> bool {
    if t@.contains_key(w) {
        e == w
    } else if exists|x: Seq<char>| #[trigger] is_edit1(w, x) && t@.contains_key(x) {
        is_edit1(w, e) && t@.contains_key(e)
    } else if exists|x: Seq<char>| #[trigger] is_edit2(w, x) && t@.contains_key(x) {
        is_edit2(w, e) && t@.contains_key(e)
    } else {
        e == w
    }
}

/// The non-empty set of correction candidates for `word` under the tiered
/// fallback policy.  If `word` is already recorded, the set is `{word}` and
/// the edit generators play no part.
pub fn candidates(word: String, counts: &WordCounts) -> (r: WordSet)
    ensures
        forall|e: Seq<char>| #[trigger] r@.contains(e) <==> is_candidate(word@, *counts, e),
        r@.len() > 0,
        counts@.contains_key(word@) ==> forall|e: Seq<char>|
            #[trigger] r@.contains(e) <==> e == word@,
{
    let mut original_word = WordSet::new();
    original_word.insert(word.clone());
    let cands = known(&original_word, counts);
    if cands.len() > 0 {
        proof {
            assert(cands@.contains(cands@[0]));
            assert(counts@.contains_key(word@));
        }
        return cands;
    }
    proof {
        assert(original_word@.contains(word@));
        if counts@.contains_key(word@) {
            assert(cands@.contains(word@));
        }
        assert(!counts@.contains_key(word@));
    }
    let edits1_words = edits1(word.as_str());
    let cands = known(&edits1_words, counts);
    if cands.len() > 0 {
        proof {
            assert(cands@.contains(cands@[0]));
            assert(is_edit1(word@, cands@[0]) && counts@.contains_key(cands@[0]));
            assert(cands@.len() > 0);
        }
        return cands;
    }
    proof {
        assert forall|x: Seq<char>| !(#[trigger] is_edit1(word@, x) && counts@.contains_key(
            x,
        )) by {
            if is_edit1(word@, x) && counts@.contains_key(x) {
                assert(cands@.contains(x));
            }
        }
    }
    let edits2_words = edits2(word.as_str());
    let cands = known(&edits2_words, counts);
    if cands.len() > 0 {
        proof {
            assert(cands@.contains(cands@[0]));
            assert(is_edit2(word@, cands@[0]) && counts@.contains_key(cands@[0]));
        }
        return cands;
    }
    proof {
        assert forall|x: Seq<char>| !(#[trigger] is_edit2(word@, x) && counts@.contains_key(
            x,
        )) by {
            if is_edit2(word@, x) && counts@.contains_key(x) {
                assert(cands@.contains(x));
            }
        }
        assert(original_word@.contains(word@));
        assert(original_word@.len() > 0);
    }
    original_word
}

/// Among the candidates for `w`, `r` is the selected correction: a candidate
/// of strictly greatest count, ties broken toward the lexicographically
/// smallest candidate.
pub open spec fn is_best_candidate(w: Seq<char>, t: WordCounts, r: Seq<char>) -> bool {
    &&& is_candidate(w, t, r)
    &&& forall|c: Seq<char>|
        #[trigger] is_candidate(w, t, c) ==> (freq(t, c) < freq(t, r) || (freq(t, c) == freq(t, r)
            && str_le(r, c)))
}

/// The corrected spelling of `word`: the candidate with the highest estimated
/// probability.  A word that is already recorded, or for which no edit within
/// distance two is recorded, comes back unchanged.
pub fn correction(word: &str, counts: &WordCounts) -> (r: String)
    requires
        counts.wf(),
    ensures
        is_best_candidate(word@, *counts, r@),
        counts@.contains_key(word@) ==> r@ == word@,
{
    let cands = candidates(word.to_owned(), counts);
    let n = cands.len();
    let mut max_word = cands.get(0).clone();
    let mut max_count = match counts.get(&max_word) {
        Some(c) => c,
        None => 0,
    };
    proof {
        assert(cands@.contains(cands@[0]));
    }
    let mut i: usize = 1;
    while i < n
        invariant
            counts.wf(),
            n == cands@.len(),
            1 <= i <= n,
            forall|e: Seq<char>| #[trigger] cands@.contains(e) <==> is_candidate(word@, *counts, e),
            cands@.contains(max_word@),
            max_count == freq(*counts, max_word@),
            forall|j: int|
                0 <= j < i ==> (freq(*counts, #[trigger] cands@[j]) < max_count || (freq(
                    *counts,
                    cands@[j],
                ) == max_count && str_le(max_word@, cands@[j]))),
        decreases n - i,
    {
        let c = cands.get(i);
        let cnt = match counts.get(c) {
            Some(x) => x,
            None => 0,
        };
        proof {
            assert(cands@.contains(cands@[i as int]));
        }
        let better = cnt > max_count || (cnt == max_count && lex_lt(c.as_str(), max_word.as_str()));
        let ghost omw = max_word@;
        let ghost omc = max_count;
        if better {
            max_word = c.clone();
            max_count = cnt;
            proof {
                assert forall|j: int|
                    0 <= j < i + 1 implies (freq(*counts, #[trigger] cands@[j]) < max_count || (
                freq(*counts, cands@[j]) == max_count && str_le(max_word@, cands@[j]))) by {
                    if j == i {
                        assert(str_le(max_word@, cands@[j]));
                    } else {
                        if cnt == omc && freq(*counts, cands@[j]) == omc {
                            if omw != cands@[j] {
                                lemma_str_lt_trans(max_word@, omw, cands@[j]);
                            }
                        }
                    }
                }
            }
        } else {
            proof {
                assert forall|j: int|
                    0 <= j < i + 1 implies (freq(*counts, #[trigger] cands@[j]) < max_count || (
                freq(*counts, cands@[j]) == max_count && str_le(max_word@, cands@[j]))) by {
                    if j == i && cnt == max_count {
                        lemma_str_lt_total(c@, max_word@);
                    }
                }
            }
        }
        i += 1;
    }
    proof {
        assert(is_candidate(word@, *counts, max_word@));
        assert forall|c: Seq<char>| #[trigger] is_candidate(word@, *counts, c) implies (freq(
            *counts,
            c,
        ) < freq(*counts, max_word@) || (freq(*counts, c) == freq(*counts, max_word@) && str_le(
            max_word@,
            c,
        ))) by {
            assert(cands@.contains(c));
            let j = choose|j: int| 0 <= j < cands@.len() && cands@[j] == c;
            assert(freq(*counts, cands@[j]) < max_count || (freq(*counts, cands@[j]) == max_count
                && str_le(max_word@, cands@[j])));
        }
    }
    max_word
}

/// The selection contract pins the correction down: two best candidates for
/// the same word and table are equal.
pub proof fn lemma_best_candidate_unique(w: Seq<char>, t: WordCounts, r1: Seq<char>, r2: Seq<char>)
    requires
        is_best_candidate(w, t, r1),
        is_best_candidate(w, t, r2),
    ensures
        r1 == r2,
{
    if r1 != r2 {
        assert(is_candidate(w, t, r1));
        assert(is_candidate(w, t, r2));
        lemma_str_lt_total(r1, r2);
        assert(false);
    }
}

/// A selected correction is never the empty string when the word itself is
/// non-empty and the table records only non-empty words.
pub proof fn lemma_correction_nonempty(w: Seq<char>, t: WordCounts, r: Seq<char>)
    requires
        is_best_candidate(w, t, r),
        w.len() > 0,
        forall|k: Seq<char>| #[trigger] t@.contains_key(k) ==> k.len() > 0,
    ensures
        r.len() > 0,
{
    assert(is_candidate(w, t, r));
}

} // verus!
