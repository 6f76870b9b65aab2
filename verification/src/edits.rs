use vstd::prelude::*;
use vstd::string::*;

use crate::wordset::WordSet;

verus! {

/// A character the edit generator may substitute or insert: one of the 26
/// lowercase Latin letters.
pub open spec fn is_lower_letter(c: char) -> bool {
    'a' <= c && c <= 'z'
}

/// `w` with the character at position `i` removed.
pub open spec fn delete_at(w: Seq<char>, i: int) -> Seq<char> {
    w.subrange(0, i) + w.subrange(i + 1, w.len() as int)
}

/// `w` with the adjacent characters at positions `i` and `i + 1` swapped.
pub open spec fn transpose_at(w: Seq<char>, i: int) -> Seq<char> {
    w.subrange(0, i) + seq![w[i + 1], w[i]] + w.subrange(i + 2, w.len() as int)
}

/// `w` with the character at position `i` replaced by `c`.
pub open spec fn replace_at(w: Seq<char>, i: int, c: char) -> Seq<char> {
    w.subrange(0, i) + seq![c] + w.subrange(i + 1, w.len() as int)
}

/// `w` with `c` inserted before position `i`.
pub open spec fn insert_at(w: Seq<char>, i: int, c: char) -> Seq<char> {
    w.subrange(0, i) + seq![c] + w.subrange(i, w.len() as int)
}

pub open spec fn is_delete(w: Seq<char>, e: Seq<char>) -> bool {
    exists|i: int| 0 <= i < w.len() && e == delete_at(w, i)
}

pub open spec fn is_transpose(w: Seq<char>, e: Seq<char>) -> bool {
    exists|i: int| 0 <= i && i + 1 < w.len() && e == transpose_at(w, i)
}

pub open spec fn is_replace(w: Seq<char>, e: Seq<char>) -> bool {
    exists|i: int, c: char|
        0 <= i < w.len() && is_lower_letter(c) && e == replace_at(w, i, c)
}

pub open spec fn is_insert(w: Seq<char>, e: Seq<char>) -> bool {
    exists|i: int, c: char|
        0 <= i <= w.len() && is_lower_letter(c) && e == insert_at(w, i, c)
}

/// The strings reachable from `w` by exactly one edit operation.
pub open spec fn is_edit1(w: Seq<char>, e: Seq<char>) -> bool {
    is_delete(w, e) || is_transpose(w, e) || is_replace(w, e) || is_insert(w, e)
}

/// The strings reachable from `w` by a two-step path of edit operations.
pub open spec fn is_edit2(w: Seq<char>, e: Seq<char>) -> bool {
    exists|m: Seq<char>| is_edit1(w, m) && is_edit1(m, e)
}

/// Relies on `String::push`: it appends the given character at the end.
#[verifier::external_body]
pub(crate) fn push_char(s: &mut String, c: char)
    ensures
        final(s)@ == old(s)@.push(c),
{
    s.push(c);
}

/// A word cut at one cursor position: the characters before it and the
/// characters from it on.
pub struct Split {
    pub prefix: String,
    pub suffix: String,
}

/// Cuts `word` at every cursor position, in order: `word.len() + 1` splits.
pub fn splits(word: &str) -> (r: Vec<Split>)
    ensures
        r@.len() == word@.len() + 1,
        forall|i: int|
            0 <= i < r@.len() ==> (#[trigger] r@[i]).prefix@ == word@.subrange(0, i)
                && r@[i].suffix@ == word@.subrange(i, word@.len() as int),
{
    let n = word.unicode_len();
    let mut r: Vec<Split> = Vec::new();
    let mut i: usize = 0;
    while i < n
        invariant
            n == word@.len(),
            0 <= i <= n,
            r@.len() == i,
            forall|j: int|
                0 <= j < i ==> (#[trigger] r@[j]).prefix@ == word@.subrange(0, j)
                    && r@[j].suffix@ == word@.subrange(j, word@.len() as int),
        decreases n - i,
    {
        let prefix = word.substring_char(0, i).to_owned();
        let suffix = word.substring_char(i, n).to_owned();
        r.push(Split { prefix, suffix });
        i += 1;
    }
    let whole = word.to_owned();
    r.push(Split { prefix: whole, suffix: String::new() });
    proof {
        assert(word@.subrange(0, word@.len() as int) =~= word@);
        assert(word@.subrange(word@.len() as int, word@.len() as int) =~= Seq::<char>::empty());
    }
    r
}

/// The words that deleting the first suffix character of some split yields.
pub open spec fn split_delete(sp: Seq<Split>, e: Seq<char>) -> bool {
    exists|i: int|
        0 <= i < sp.len() && (#[trigger] sp[i]).suffix@.len() > 0 && e == sp[i].prefix@
            + sp[i].suffix@.subrange(1, sp[i].suffix@.len() as int)
}

/// Adds to `bucket` every word that one deletion yields: for each split with a
/// non-empty suffix, the prefix followed by the suffix without its first
/// character.
pub fn deletes(splits: &Vec<Split>, bucket: &mut WordSet)
    ensures
        forall|e: Seq<char>|
            #[trigger] final(bucket)@.contains(e) <==> (old(bucket)@.contains(e) || split_delete(
                splits@,
                e,
            )),
{
    let mut i: usize = 0;
    while i < splits.len()
        invariant
            0 <= i <= splits@.len(),
            forall|e: Seq<char>|
                #[trigger] bucket@.contains(e) <==> (old(bucket)@.contains(e) || exists|j: int|
                    0 <= j < i && (#[trigger] splits@[j]).suffix@.len() > 0 && e == splits@[j].prefix@
                        + splits@[j].suffix@.subrange(1, splits@[j].suffix@.len() as int)),
        decreases splits@.len() - i,
    {
        let s = &splits[i];
        let ghost prev = bucket@;
        let m = s.suffix.as_str().unicode_len();
        if m > 0 {
            let tail = s.suffix.as_str().substring_char(1, m);
            let w2 = s.prefix.clone().concat(tail);
            bucket.add(w2);
        }
        proof {
            assert forall|e: Seq<char>| #[trigger] bucket@.contains(e) implies (old(
                bucket,
            )@.contains(e) || exists|j: int|
                0 <= j < i + 1 && (#[trigger] splits@[j]).suffix@.len() > 0 && e == splits@[j].prefix@
                    + splits@[j].suffix@.subrange(1, splits@[j].suffix@.len() as int)) by {
                if !prev.contains(e) && !old(bucket)@.contains(e) {
                    assert(0 <= i < splits@.len() && splits@[i as int].suffix@.len() > 0
                        && e == splits@[i as int].prefix@ + splits@[i as int].suffix@.subrange(
                        1,
                        splits@[i as int].suffix@.len() as int,
                    ));
                }
            }
            assert forall|e: Seq<char>|
                (old(bucket)@.contains(e) || exists|j: int|
                    0 <= j < i + 1 && (#[trigger] splits@[j]).suffix@.len() > 0 && e
                        == splits@[j].prefix@ + splits@[j].suffix@.subrange(
                        1,
                        splits@[j].suffix@.len() as int,
                    )) implies #[trigger] bucket@.contains(e) by {
                if !old(bucket)@.contains(e) {
                    let j = choose|j: int|
                        0 <= j < i + 1 && (#[trigger] splits@[j]).suffix@.len() > 0 && e
                            == splits@[j].prefix@ + splits@[j].suffix@.subrange(
                            1,
                            splits@[j].suffix@.len() as int,
                        );
                    if j < i {
                        assert(prev.contains(e));
                    }
                }
            }
        }
        i += 1;
    }
}

/// The words that swapping the first two suffix characters of some split
/// yields.
pub open spec fn split_transpose(sp: Seq<Split>, e: Seq<char>) -> bool {
    exists|i: int|
        0 <= i < sp.len() && (#[trigger] sp[i]).suffix@.len() > 1 && e == sp[i].prefix@
            + seq![sp[i].suffix@[1], sp[i].suffix@[0]] + sp[i].suffix@.subrange(
            2,
            sp[i].suffix@.len() as int,
        )
}

/// Adds to `bucket` every word that one transposition yields: for each split
/// whose suffix has at least two characters, the prefix, the first two suffix
/// characters swapped, and the rest of the suffix.
pub fn transposes(splits: &Vec<Split>, bucket: &mut WordSet)
    ensures
        forall|e: Seq<char>|
            #[trigger] final(bucket)@.contains(e) <==> (old(bucket)@.contains(e) || split_transpose(
                splits@,
                e,
            )),
{
    let mut i: usize = 0;
    while i < splits.len()
        invariant
            0 <= i <= splits@.len(),
            forall|e: Seq<char>|
                #[trigger] bucket@.contains(e) <==> (old(bucket)@.contains(e) || exists|j: int|
                    0 <= j < i && (#[trigger] splits@[j]).suffix@.len() > 1 && e == splits@[j].prefix@
                        + seq![splits@[j].suffix@[1], splits@[j].suffix@[0]]
                        + splits@[j].suffix@.subrange(2, splits@[j].suffix@.len() as int)),
        decreases splits@.len() - i,
    {
        let s = &splits[i];
        let ghost prev = bucket@;
        let m = s.suffix.as_str().unicode_len();
        if m > 1 {
            let mut w2 = s.prefix.clone();
            push_char(&mut w2, s.suffix.as_str().get_char(1));
            push_char(&mut w2, s.suffix.as_str().get_char(0));
            let w2 = w2.concat(s.suffix.as_str().substring_char(2, m));
            proof {
                assert(w2@ =~= s.prefix@ + seq![s.suffix@[1], s.suffix@[0]] + s.suffix@.subrange(
                    2,
                    s.suffix@.len() as int,
                ));
            }
            bucket.add(w2);
        }
        proof {
            assert forall|e: Seq<char>| #[trigger] bucket@.contains(e) implies (old(
                bucket,
            )@.contains(e) || exists|j: int|
                0 <= j < i + 1 && (#[trigger] splits@[j]).suffix@.len() > 1 && e
                    == splits@[j].prefix@ + seq![splits@[j].suffix@[1], splits@[j].suffix@[0]]
                    + splits@[j].suffix@.subrange(2, splits@[j].suffix@.len() as int)) by {
                if !prev.contains(e) && !old(bucket)@.contains(e) {
                    assert(0 <= i < splits@.len() && (splits@[i as int]).suffix@.len() > 1 && e
                        == splits@[i as int].prefix@ + seq![
                        splits@[i as int].suffix@[1],
                        splits@[i as int].suffix@[0],
                    ] + splits@[i as int].suffix@.subrange(
                        2,
                        splits@[i as int].suffix@.len() as int,
                    ));
                }
            }
            assert forall|e: Seq<char>|
                (old(bucket)@.contains(e) || exists|j: int|
                    0 <= j < i + 1 && (#[trigger] splits@[j]).suffix@.len() > 1 && e
                        == splits@[j].prefix@ + seq![splits@[j].suffix@[1], splits@[j].suffix@[0]]
                        + splits@[j].suffix@.subrange(
                        2,
                        splits@[j].suffix@.len() as int,
                    )) implies #[trigger] bucket@.contains(e) by {
                if !old(bucket)@.contains(e) {
                    let j = choose|j: int|
                        0 <= j < i + 1 && (#[trigger] splits@[j]).suffix@.len() > 1 && e
                            == splits@[j].prefix@ + seq![
                            splits@[j].suffix@[1],
                            splits@[j].suffix@[0],
                        ] + splits@[j].suffix@.subrange(2, splits@[j].suffix@.len() as int);
                    if j < i {
                        assert(prev.contains(e));
                    }
                }
            }
        }
        i += 1;
    }
}

/// The word that substituting `c` for the first suffix character of split `i`
/// yields.
pub open spec fn split_replace_at(sp: Seq<Split>, i: int, c: char) -> Seq<char> {
    sp[i].prefix@ + seq![c] + sp[i].suffix@.subrange(1, sp[i].suffix@.len() as int)
}

/// The words that substituting a lowercase letter for the first suffix
/// character of some split yields.
pub open spec fn split_replace(sp: Seq<Split>, e: Seq<char>) -> bool {
    exists|i: int, c: char|
        0 <= i < sp.len() && sp[i].suffix@.len() > 0 && is_lower_letter(c) && e
            == #[trigger] split_replace_at(sp, i, c)
}

/// Adds to `bucket` every word that one substitution yields: for each split
/// with a non-empty suffix and each of the 26 lowercase letters, the prefix,
/// the letter, and the suffix without its first character.
pub fn replaces(splits: &Vec<Split>, bucket: &mut WordSet)
    ensures
        forall|e: Seq<char>|
            #[trigger] final(bucket)@.contains(e) <==> (old(bucket)@.contains(e) || split_replace(
                splits@,
                e,
            )),
{
    let mut i: usize = 0;
    while i < splits.len()
        invariant
            0 <= i <= splits@.len(),
            forall|e: Seq<char>|
                #[trigger] bucket@.contains(e) <==> (old(bucket)@.contains(e) || exists|j: int, c: char|
                    0 <= j < i && splits@[j].suffix@.len() > 0 && is_lower_letter(c)
                        && e == #[trigger] split_replace_at(splits@, j, c)),
        decreases splits@.len() - i,
    {
        let s = &splits[i];
        let m = s.suffix.as_str().unicode_len();
        if m > 0 {
            let tail = s.suffix.as_str().substring_char(1, m);
            let mut b: u8 = 97;
            while b <= 122
                invariant
                    97 <= b <= 123,
                    m == s.suffix@.len(),
                    0 <= i < splits@.len(),
                    s == splits@[i as int],
                    tail@ == s.suffix@.subrange(1, s.suffix@.len() as int),
                    forall|e: Seq<char>|
                        #[trigger] bucket@.contains(e) <==> (old(bucket)@.contains(e) || exists|
                            j: int,
                            c: char,
                        |
                            0 <= j < i && (#[trigger] splits@[j]).suffix@.len() > 0
                                && is_lower_letter(c) && e == #[trigger] split_replace_at(splits@, j, c)
                            || (is_lower_letter(c) && c < (b as char) && j == i && e
                                == split_replace_at(splits@, i as int, c))),
                decreases 123 - b,
            {
                let letter = b as char;
                let mut w2 = s.prefix.clone();
                push_char(&mut w2, letter);
                let w2 = w2.concat(tail);
                proof {
                    assert(w2@ =~= split_replace_at(splits@, i as int, letter));
                    assert(is_lower_letter(letter));
                }
                let ghost prev = bucket@;
                bucket.add(w2);
                proof {
                    assert forall|e: Seq<char>| #[trigger] bucket@.contains(e) <==> (old(
                        bucket,
                    )@.contains(e) || exists|j: int, c: char|
                        0 <= j < i && (#[trigger] splits@[j]).suffix@.len() > 0 && is_lower_letter(
                            c,
                        ) && e == #[trigger] split_replace_at(splits@, j, c) || (is_lower_letter(c)
                            && c < ((b + 1) as char) && j == i && e == split_replace_at(
                            splits@,
                            i as int,
                            c,
                        ))) by {
                        if bucket@.contains(e) && !prev.contains(e) {
                            assert(e == split_replace_at(splits@, i as int, letter));
                            assert(is_lower_letter(letter) && letter < ((b + 1) as char));
                        }
                        if (old(bucket)@.contains(e) || exists|j: int, c: char|
                            0 <= j < i && (#[trigger] splits@[j]).suffix@.len() > 0
                                && is_lower_letter(c) && e == #[trigger] split_replace_at(splits@, j, c) || (
                            is_lower_letter(c) && c < ((b + 1) as char) && j == i && e
                                == split_replace_at(splits@, i as int, c))) {
                            if !old(bucket)@.contains(e) {
                                let (j, c) = choose|j: int, c: char|
                                    0 <= j < i && (#[trigger] splits@[j]).suffix@.len() > 0
                                        && is_lower_letter(c) && e == #[trigger] split_replace_at(splits@, j, c)
                                        || (is_lower_letter(c) && c < ((b + 1) as char) && j == i
                                        && e == split_replace_at(splits@, i as int, c));
                                if j == i && c == letter {
                                    assert(bucket@.contains(e));
                                } else if j == i {
                                    assert(c < (b as char));
                                    assert(prev.contains(e));
                                } else {
                                    assert(prev.contains(e));
                                }
                            }
                        }
                    }
                }
                b += 1;
            }
            proof {
                assert forall|c: char| is_lower_letter(c) implies c < (123u8 as char) by {}
            }
        }
        proof {
            assert forall|e: Seq<char>| #[trigger] bucket@.contains(e) <==> (old(bucket)@.contains(
                e,
            ) || exists|j: int, c: char|
                0 <= j < i + 1 && splits@[j].suffix@.len() > 0 && is_lower_letter(c)
                    && e == #[trigger] split_replace_at(splits@, j, c)) by {
                if (old(bucket)@.contains(e) || exists|j: int, c: char|
                    0 <= j < i + 1 && (#[trigger] splits@[j]).suffix@.len() > 0 && is_lower_letter(
                        c,
                    ) && e == #[trigger] split_replace_at(splits@, j, c)) {
                    if !old(bucket)@.contains(e) {
                        let (j, c) = choose|j: int, c: char|
                            0 <= j < i + 1 && (#[trigger] splits@[j]).suffix@.len() > 0
                                && is_lower_letter(c) && e == #[trigger] split_replace_at(splits@, j, c);
                        if j == i {
                            assert(splits@[i as int].suffix@.len() > 0);
                            assert(c < (123u8 as char));
                            assert(bucket@.contains(e));
                        } else {
                            assert(bucket@.contains(e));
                        }
                    }
                }
            }
        }
        i += 1;
    }
}

/// The word that inserting `c` at the cursor of split `i` yields.
pub open spec fn split_insert_at(sp: Seq<Split>, i: int, c: char) -> Seq<char> {
    sp[i].prefix@ + seq![c] + sp[i].suffix@
}

/// The words that inserting a lowercase letter at the cursor of some split
/// yields.
pub open spec fn split_insert(sp: Seq<Split>, e: Seq<char>) -> bool {
    exists|i: int, c: char|
        0 <= i < sp.len() && is_lower_letter(c) && e == #[trigger] split_insert_at(sp, i, c)
}

/// Adds to `bucket` every word that one insertion yields: for each split and
/// each of the 26 lowercase letters, the prefix, the letter, and the suffix.
pub fn inserts(splits: &Vec<Split>, bucket: &mut WordSet)
    ensures
        forall|e: Seq<char>|
            #[trigger] final(bucket)@.contains(e) <==> (old(bucket)@.contains(e) || split_insert(
                splits@,
                e,
            )),
{
    let mut i: usize = 0;
    while i < splits.len()
        invariant
            0 <= i <= splits@.len(),
            forall|e: Seq<char>|
                #[trigger] bucket@.contains(e) <==> (old(bucket)@.contains(e) || exists|j: int, c: char|
                    0 <= j < i && is_lower_letter(c) && e == #[trigger] split_insert_at(
                        splits@,
                        j,
                        c,
                    )),
        decreases splits@.len() - i,
    {
        let s = &splits[i];
        let mut b: u8 = 97;
        while b <= 122
            invariant
                97 <= b <= 123,
                0 <= i < splits@.len(),
                s == splits@[i as int],
                forall|e: Seq<char>|
                    #[trigger] bucket@.contains(e) <==> (old(bucket)@.contains(e) || exists|
                        j: int,
                        c: char,
                    |
                        0 <= j < i && is_lower_letter(c) && e == #[trigger] split_insert_at(
                            splits@,
                            j,
                            c,
                        ) || (is_lower_letter(c) && c < (b as char) && j == i && e
                            == split_insert_at(splits@, i as int, c))),
            decreases 123 - b,
        {
            let letter = b as char;
            let mut w2 = s.prefix.clone();
            push_char(&mut w2, letter);
            let w2 = w2.concat(s.suffix.as_str());
            proof {
                assert(w2@ =~= split_insert_at(splits@, i as int, letter));
                assert(is_lower_letter(letter));
            }
            let ghost prev = bucket@;
            bucket.add(w2);
            proof {
                assert forall|e: Seq<char>| #[trigger] bucket@.contains(e) <==> (old(
                    bucket,
                )@.contains(e) || exists|j: int, c: char|
                    0 <= j < i && is_lower_letter(c) && e == #[trigger] split_insert_at(
                        splits@,
                        j,
                        c,
                    ) || (is_lower_letter(c) && c < ((b + 1) as char) && j == i && e
                        == split_insert_at(splits@, i as int, c))) by {
                    if bucket@.contains(e) && !prev.contains(e) {
                        assert(e == split_insert_at(splits@, i as int, letter));
                        assert(is_lower_letter(letter) && letter < ((b + 1) as char));
                    }
                    if (old(bucket)@.contains(e) || exists|j: int, c: char|
                        0 <= j < i && is_lower_letter(c) && e == #[trigger] split_insert_at(
                            splits@,
                            j,
                            c,
                        ) || (is_lower_letter(c) && c < ((b + 1) as char) && j == i && e
                            == split_insert_at(splits@, i as int, c))) {
                        if !old(bucket)@.contains(e) {
                            let (j, c) = choose|j: int, c: char|
                                0 <= j < i && is_lower_letter(c) && e == #[trigger] split_insert_at(
                                    splits@,
                                    j,
                                    c,
                                ) || (is_lower_letter(c) && c < ((b + 1) as char) && j == i && e
                                    == split_insert_at(splits@, i as int, c));
                            if j == i && c == letter {
                                assert(bucket@.contains(e));
                            } else if j == i {
                                assert(c < (b as char));
                                assert(prev.contains(e));
                            } else {
                                assert(prev.contains(e));
                            }
                        }
                    }
                }
            }
            b += 1;
        }
        proof {
            assert forall|e: Seq<char>| #[trigger] bucket@.contains(e) <==> (old(bucket)@.contains(
                e,
            ) || exists|j: int, c: char|
                0 <= j < i + 1 && is_lower_letter(c) && e == #[trigger] split_insert_at(
                    splits@,
                    j,
                    c,
                )) by {
                if (old(bucket)@.contains(e) || exists|j: int, c: char|
                    0 <= j < i + 1 && is_lower_letter(c) && e == #[trigger] split_insert_at(
                        splits@,
                        j,
                        c,
                    )) {
                    if !old(bucket)@.contains(e) {
                        let (j, c) = choose|j: int, c: char|
                            0 <= j < i + 1 && is_lower_letter(c) && e == #[trigger] split_insert_at(
                                splits@,
                                j,
                                c,
                            );
                        if j == i {
                            assert(c < (123u8 as char));
                            assert(bucket@.contains(e));
                        } else {
                            assert(bucket@.contains(e));
                        }
                    }
                }
            }
        }
        i += 1;
    }
}

/// A single edit changes the length of the word by at most one: no first-order
/// edit of `w` is shorter than `w.len() - 1` or longer than `w.len() + 1`.
pub proof fn lemma_edit1_len(w: Seq<char>, e: Seq<char>)
    requires
        is_edit1(w, e),
    ensures
        w.len() - 1 <= e.len() <= w.len() + 1,
{
    if is_delete(w, e) {
        let i = choose|i: int| 0 <= i < w.len() && e == delete_at(w, i);
        assert(e.len() == w.len() - 1);
    } else if is_transpose(w, e) {
        let i = choose|i: int| 0 <= i && i + 1 < w.len() && e == transpose_at(w, i);
        assert(e.len() == w.len());
    } else if is_replace(w, e) {
        let (i, c) = choose|i: int, c: char|
            0 <= i < w.len() && is_lower_letter(c) && e == replace_at(w, i, c);
        assert(e.len() == w.len());
    } else {
        let (i, c) = choose|i: int, c: char|
            0 <= i <= w.len() && is_lower_letter(c) && e == insert_at(w, i, c);
        assert(e.len() == w.len() + 1);
    }
}

/// A two-step edit changes the length of the word by at most two.
pub proof fn lemma_edit2_len(w: Seq<char>, e: Seq<char>)
    requires
        is_edit2(w, e),
    ensures
        w.len() - 2 <= e.len() <= w.len() + 2,
{
    let m = choose|m: Seq<char>| is_edit1(w, m) && is_edit1(m, e);
    lemma_edit1_len(w, m);
    lemma_edit1_len(m, e);
}

/// Over the splits of `w`, the four split-local generation families coincide
/// with the four edit families of `w` itself.
proof fn lemma_split_edits(w: Seq<char>, sp: Seq<Split>)
    requires
        sp.len() == w.len() + 1,
        forall|i: int|
            0 <= i < sp.len() ==> (#[trigger] sp[i]).prefix@ == w.subrange(0, i)
                && sp[i].suffix@ == w.subrange(i, w.len() as int),
    ensures
        forall|e: Seq<char>| split_delete(sp, e) <==> is_delete(w, e),
        forall|e: Seq<char>| split_transpose(sp, e) <==> is_transpose(w, e),
        forall|e: Seq<char>| split_replace(sp, e) <==> is_replace(w, e),
        forall|e: Seq<char>| split_insert(sp, e) <==> is_insert(w, e),
{
    let n = w.len() as int;
    assert forall|i: int| 0 <= i < n implies sp[i].suffix@.subrange(
        1,
        sp[i].suffix@.len() as int,
    ) == w.subrange(i + 1, n) by {
        assert(sp[i].suffix@.subrange(1, sp[i].suffix@.len() as int) =~= w.subrange(i + 1, n));
    }
    assert forall|i: int| 0 <= i < n - 1 implies sp[i].suffix@.subrange(
        2,
        sp[i].suffix@.len() as int,
    ) == w.subrange(i + 2, n) by {
        assert(sp[i].suffix@.subrange(2, sp[i].suffix@.len() as int) =~= w.subrange(i + 2, n));
    }
    assert forall|e: Seq<char>| split_delete(sp, e) implies is_delete(w, e) by {
        let i = choose|i: int|
            0 <= i < sp.len() && (#[trigger] sp[i]).suffix@.len() > 0 && e == sp[i].prefix@
                + sp[i].suffix@.subrange(1, sp[i].suffix@.len() as int);
        assert(0 <= i < n && e == delete_at(w, i));
    }
    assert forall|e: Seq<char>| is_delete(w, e) implies split_delete(sp, e) by {
        let i = choose|i: int| 0 <= i < w.len() && e == delete_at(w, i);
        assert(sp[i].suffix@.len() > 0 && e == sp[i].prefix@ + sp[i].suffix@.subrange(
            1,
            sp[i].suffix@.len() as int,
        ));
    }
    assert forall|e: Seq<char>| split_transpose(sp, e) implies is_transpose(w, e) by {
        let i = choose|i: int|
            0 <= i < sp.len() && (#[trigger] sp[i]).suffix@.len() > 1 && e == sp[i].prefix@
                + seq![sp[i].suffix@[1], sp[i].suffix@[0]] + sp[i].suffix@.subrange(
                2,
                sp[i].suffix@.len() as int,
            );
        assert(sp[i].suffix@[0] == w[i] && sp[i].suffix@[1] == w[i + 1]);
        assert(0 <= i && i + 1 < w.len() && e == transpose_at(w, i));
    }
    assert forall|e: Seq<char>| is_transpose(w, e) implies split_transpose(sp, e) by {
        let i = choose|i: int| 0 <= i && i + 1 < w.len() && e == transpose_at(w, i);
        assert(sp[i].suffix@[0] == w[i] && sp[i].suffix@[1] == w[i + 1]);
        assert(sp[i].suffix@.len() > 1 && e == sp[i].prefix@ + seq![
            sp[i].suffix@[1],
            sp[i].suffix@[0],
        ] + sp[i].suffix@.subrange(2, sp[i].suffix@.len() as int));
    }
    assert forall|e: Seq<char>| split_replace(sp, e) implies is_replace(w, e) by {
        let (i, c) = choose|i: int, c: char|
            0 <= i < sp.len() && sp[i].suffix@.len() > 0 && is_lower_letter(c) && e
                == #[trigger] split_replace_at(sp, i, c);
        assert(0 <= i < w.len() && is_lower_letter(c) && e == replace_at(w, i, c));
    }
    assert forall|e: Seq<char>| is_replace(w, e) implies split_replace(sp, e) by {
        let (i, c) = choose|i: int, c: char|
            0 <= i < w.len() && is_lower_letter(c) && e == replace_at(w, i, c);
        assert(sp[i].suffix@.len() > 0 && e == split_replace_at(sp, i, c));
    }
    assert forall|e: Seq<char>| split_insert(sp, e) implies is_insert(w, e) by {
        let (i, c) = choose|i: int, c: char|
            0 <= i < sp.len() && is_lower_letter(c) && e == #[trigger] split_insert_at(sp, i, c);
        assert(0 <= i <= w.len() && is_lower_letter(c) && e == insert_at(w, i, c));
    }
    assert forall|e: Seq<char>| is_insert(w, e) implies split_insert(sp, e) by {
        let (i, c) = choose|i: int, c: char|
            0 <= i <= w.len() && is_lower_letter(c) && e == insert_at(w, i, c);
        assert(e == split_insert_at(sp, i, c));
    }
}

/// The set of all words reachable from `word` by exactly one edit operation
/// (deletion, transposition, substitution or insertion) at any position.
pub fn edits1(word: &str) -> (r: WordSet)
    ensures
        forall|e: Seq<char>| #[trigger] r@.contains(e) <==> is_edit1(word@, e),
{
    let sp = splits(word);
    let mut edits = WordSet::new();
    deletes(&sp, &mut edits);
    transposes(&sp, &mut edits);
    replaces(&sp, &mut edits);
    inserts(&sp, &mut edits);
    proof {
        lemma_split_edits(word@, sp@);
    }
    edits
}

/// The set of all words reachable from `word` by two edit steps: the union of
/// the single edits of each single edit of `word`.
pub fn edits2(word: &str) -> (r: WordSet)
    ensures
        forall|e: Seq<char>| #[trigger] r@.contains(e) <==> is_edit2(word@, e),
{
    let e1s = edits1(word);
    let mut edits = WordSet::new();
    let n1 = e1s.len();
    let mut i: usize = 0;
    while i < n1
        invariant
            n1 == e1s@.len(),
            0 <= i <= n1,
            forall|e: Seq<char>| #[trigger] e1s@.contains(e) <==> is_edit1(word@, e),
            forall|e: Seq<char>|
                #[trigger] edits@.contains(e) <==> exists|j: int|
                    0 <= j < i && #[trigger] is_edit1(e1s@[j], e),
        decreases n1 - i,
    {
        let m = e1s.get(i);
        let e2s = edits1(m.as_str());
        let n2 = e2s.len();
        let mut k: usize = 0;
        while k < n2
            invariant
                n2 == e2s@.len(),
                0 <= k <= n2,
                0 <= i < e1s@.len(),
                m@ == e1s@[i as int],
                forall|e: Seq<char>| #[trigger] e2s@.contains(e) <==> is_edit1(m@, e),
                forall|e: Seq<char>|
                    #[trigger] edits@.contains(e) <==> (exists|j: int|
                        0 <= j < i && #[trigger] is_edit1(e1s@[j], e)) || (exists|j: int|
                        0 <= j < k && e == e2s@[j]),
            decreases n2 - k,
        {
            let ghost prev = edits@;
            edits.add(e2s.get(k).clone());
            proof {
                assert forall|e: Seq<char>| #[trigger] edits@.contains(e) <==> ((exists|j: int|
                    0 <= j < i && #[trigger] is_edit1(e1s@[j], e)) || (exists|j: int|
                    0 <= j < k + 1 && e == e2s@[j])) by {
                    if edits@.contains(e) && !prev.contains(e) {
                        assert(e == e2s@[k as int]);
                    }
                    if !edits@.contains(e) {
                        if exists|j: int| 0 <= j < k + 1 && e == e2s@[j] {
                            let j = choose|j: int| 0 <= j < k + 1 && e == e2s@[j];
                            if j < k {
                                assert(prev.contains(e));
                            } else {
                                assert(e == e2s@[k as int]);
                            }
                            assert(false);
                        }
                    }
                }
            }
            k += 1;
        }
        proof {
            assert forall|e: Seq<char>| #[trigger] edits@.contains(e) <==> exists|j: int|
                0 <= j < i + 1 && #[trigger] is_edit1(e1s@[j], e) by {
                if edits@.contains(e) {
                    if !(exists|j: int| 0 <= j < i && #[trigger] is_edit1(e1s@[j], e)) {
                        let j = choose|j: int| 0 <= j < n2 && e == e2s@[j];
                        assert(e2s@.contains(e));
                        assert(is_edit1(e1s@[i as int], e));
                    }
                } else {
                    if exists|j: int| 0 <= j < i + 1 && #[trigger] is_edit1(e1s@[j], e) {
                        let j = choose|j: int| 0 <= j < i + 1 && #[trigger] is_edit1(e1s@[j], e);
                        if j < i {
                            assert(edits@.contains(e));
                        } else {
                            assert(is_edit1(m@, e));
                            assert(e2s@.contains(e));
                            let jj = choose|jj: int| 0 <= jj < e2s@.len() && e2s@[jj] == e;
                            assert(edits@.contains(e));
                        }
                        assert(false);
                    }
                }
            }
        }
        i += 1;
    }
    proof {
        assert forall|e: Seq<char>| #[trigger] edits@.contains(e) <==> is_edit2(word@, e) by {
            if edits@.contains(e) {
                let j = choose|j: int| 0 <= j < n1 && #[trigger] is_edit1(e1s@[j], e);
                assert(e1s@.contains(e1s@[j]));
                assert(is_edit1(word@, e1s@[j]) && is_edit1(e1s@[j], e));
            }
            if is_edit2(word@, e) {
                let m = choose|m: Seq<char>| is_edit1(word@, m) && is_edit1(m, e);
                assert(e1s@.contains(m));
                let j = choose|j: int| 0 <= j < e1s@.len() && e1s@[j] == m;
                assert(is_edit1(e1s@[j], e));
                assert(edits@.contains(e));
            }
        }
    }
    edits
}

} // verus!
