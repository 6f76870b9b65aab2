use vstd::prelude::*;
use vstd::string::*;

use crate::counting::WordCounts;
use crate::edits::push_char;

verus! {

/// Whether `c` is a word character, in the sense of the regex crate's `\w`
/// character class.
pub uninterp spec fn word_char(c: char) -> bool;

/// Relies on the regex crate's `\w` character class, tested through
/// `Regex::is_match` on a one-character string: whether that character is a
/// word character is a function of the character alone.
#[verifier::external_body]
fn is_word_char(c: char) -> (r: bool)
    ensures
        r == word_char(c),
{
    regex::Regex::new(r"\w").unwrap().is_match(c.to_string().as_str())
}

/// A character that may form part of a token: a word character or an
/// apostrophe, so that contractions stay one token.
pub open spec fn is_token_char(c: char) -> bool {
    word_char(c) || c == '\''
}

fn token_char(c: char) -> (r: bool)
    ensures
        r == is_token_char(c),
{
    is_word_char(c) || c == '\''
}

/// The lowercased form of a character sequence, as `str::to_lowercase`
/// produces it.
pub uninterp spec fn lower_of(s: Seq<char>) -> Seq<char>;

/// Relies on `str::to_lowercase`: its result is a function of the character
/// sequence alone, and an empty string stays empty.
#[verifier::external_body]
fn lowercase(s: &str) -> (r: String)
    ensures
        r@ == lower_of(s@),
        s@.len() == 0 ==> r@.len() == 0,
{
    s.to_lowercase()
}

/// The length of the longest prefix of `s` made of token characters.
pub open spec fn run_len(s: Seq<char>) -> nat
    decreases s.len(),
{
    if s.len() == 0 || !is_token_char(s[0]) {
        0
    } else {
        1 + run_len(s.drop_first())
    }
}

proof fn lemma_run_len_le(s: Seq<char>)
    ensures
        run_len(s) <= s.len(),
    decreases s.len(),
{
    if s.len() > 0 && is_token_char(s[0]) {
        lemma_run_len_le(s.drop_first());
    }
}

/// The tokens of `s`: the maximal runs of token characters, in order.
pub open spec fn tokenize(s: Seq<char>) -> Seq<Seq<char>>
    decreases s.len(),
    via tokenize_decreases
{
    if s.len() == 0 {
        Seq::empty()
    } else if !is_token_char(s[0]) {
        tokenize(s.drop_first())
    } else {
        seq![s.take(run_len(s) as int)] + tokenize(s.skip(run_len(s) as int))
    }
}

#[via_fn]
proof fn tokenize_decreases(s: Seq<char>) {
    if s.len() > 0 && is_token_char(s[0]) {
        lemma_run_len_le(s);
        assert(run_len(s) == 1 + run_len(s.drop_first()));
    }
}

/// The tokens still to come when `cur` is a partial token already read and
/// `rest` is the unread remainder: `cur` glued onto the front of the first
/// run of `rest`.
spec fn tokenize_partial(cur: Seq<char>, rest: Seq<char>) -> Seq<Seq<char>> {
    if cur.len() == 0 {
        tokenize(rest)
    } else {
        seq![cur + rest.take(run_len(rest) as int)] + tokenize(rest.skip(run_len(rest) as int))
    }
}

/// Reading one more token character extends the partial token.
proof fn lemma_partial_token_step(cur: Seq<char>, rest: Seq<char>)
    requires
        rest.len() > 0,
        is_token_char(rest[0]),
    ensures
        tokenize_partial(cur, rest) == tokenize_partial(cur.push(rest[0]), rest.drop_first()),
{
    lemma_run_len_le(rest);
    let k = run_len(rest) as int;
    let rest2 = rest.drop_first();
    assert(run_len(rest) == 1 + run_len(rest2));
    if cur.len() == 0 {
        assert(rest.take(k) =~= cur.push(rest[0]) + rest2.take(k - 1));
        assert(rest.skip(k) =~= rest2.skip(k - 1));
        assert(tokenize_partial(cur, rest) =~= tokenize_partial(cur.push(rest[0]), rest2));
    } else {
        assert(cur + rest.take(k) =~= cur.push(rest[0]) + rest2.take(k - 1));
        assert(rest.skip(k) =~= rest2.skip(k - 1));
        assert(tokenize_partial(cur, rest) =~= tokenize_partial(cur.push(rest[0]), rest2));
    }
}

/// Reading a non-token character closes the partial token, if any.
proof fn lemma_partial_break_step(cur: Seq<char>, rest: Seq<char>)
    requires
        rest.len() > 0,
        !is_token_char(rest[0]),
    ensures
        cur.len() == 0 ==> tokenize_partial(cur, rest) == tokenize_partial(cur, rest.drop_first()),
        cur.len() > 0 ==> tokenize_partial(cur, rest) == seq![cur] + tokenize(rest.drop_first()),
{
    if cur.len() > 0 {
        assert(run_len(rest) == 0);
        assert(cur + rest.take(0) =~= cur);
        assert(rest.skip(0) =~= rest);
        assert(tokenize_partial(cur, rest) =~= seq![cur] + tokenize(rest.drop_first()));
    }
}

/// At the end of the line the partial token, if any, is the last token.
proof fn lemma_partial_end(cur: Seq<char>, rest: Seq<char>)
    requires
        rest.len() == 0,
    ensures
        cur.len() == 0 ==> tokenize_partial(cur, rest) == Seq::<Seq<char>>::empty(),
        cur.len() > 0 ==> tokenize_partial(cur, rest) == seq![cur],
{
    assert(rest =~= Seq::<char>::empty());
    if cur.len() == 0 {
        assert(tokenize(rest) =~= Seq::<Seq<char>>::empty());
    } else {
        assert(run_len(rest) == 0);
        assert(cur + rest.take(0) =~= cur);
        assert(tokenize(rest.skip(0)) =~= Seq::<Seq<char>>::empty());
        assert(tokenize_partial(cur, rest) =~= seq![cur]);
    }
}

/// Extracts all tokens from a line: the maximal runs of token characters, in
/// order of appearance.
pub fn parse_line(line: &str) -> (r: Vec<String>)
    ensures
        r.deep_view() == tokenize(line@),
{
    let n = line.unicode_len();
    let mut tokens: Vec<String> = Vec::new();
    let mut cur = String::new();
    let mut i: usize = 0;
    proof {
        assert(line@.skip(0) =~= line@);
        assert(tokens.deep_view() =~= Seq::<Seq<char>>::empty());
        assert(tokens.deep_view() + tokenize_partial(cur@, line@.skip(0)) =~= tokenize(line@));
    }
    while i < n
        invariant
            n == line@.len(),
            0 <= i <= n,
            tokenize(line@) == tokens.deep_view() + tokenize_partial(cur@, line@.skip(i as int)),
        decreases n - i,
    {
        let c = line.get_char(i);
        let ghost rest = line@.skip(i as int);
        proof {
            assert(rest[0] == line@[i as int]);
            assert(rest.drop_first() =~= line@.skip(i + 1));
        }
        if token_char(c) {
            proof {
                lemma_partial_token_step(cur@, rest);
            }
            push_char(&mut cur, c);
        } else {
            proof {
                lemma_partial_break_step(cur@, rest);
            }
            if !cur.as_str().is_empty() {
                let ghost done = tokens.deep_view();
                let ghost closed = cur@;
                tokens.push(cur);
                cur = String::new();
                proof {
                    assert(tokens.deep_view() =~= done.push(closed));
                    assert(done.push(closed) + tokenize(line@.skip(i + 1)) =~= done + (seq![closed]
                        + tokenize(line@.skip(i + 1))));
                }
            }
        }
        i += 1;
    }
    proof {
        assert(line@.skip(n as int) =~= Seq::<char>::empty());
        lemma_partial_end(cur@, line@.skip(n as int));
    }
    if !cur.as_str().is_empty() {
        let ghost done = tokens.deep_view();
        let ghost closed = cur@;
        tokens.push(cur);
        proof {
            assert(tokens.deep_view() =~= done.push(closed));
            assert(done.push(closed) =~= done + seq![closed]);
        }
    } else {
        proof {
            assert(tokens.deep_view() + Seq::<Seq<char>>::empty() =~= tokens.deep_view());
        }
    }
    tokens
}

/// The tokens of all the lines, in order.
pub open spec fn all_tokens(lines: Seq<Seq<char>>) -> Seq<Seq<char>>
    decreases lines.len(),
{
    if lines.len() == 0 {
        Seq::empty()
    } else {
        all_tokens(lines.drop_last()) + tokenize(lines.last())
    }
}

/// Extracts all tokens from a sequence of lines, in order.
pub fn get_words(lines: Vec<String>) -> (r: Vec<String>)
    ensures
        r.deep_view() == all_tokens(lines.deep_view()),
{
    let mut words: Vec<String> = Vec::new();
    let mut i: usize = 0;
    proof {
        assert(lines.deep_view().take(0) =~= Seq::<Seq<char>>::empty());
        assert(words.deep_view() =~= all_tokens(lines.deep_view().take(0)));
    }
    while i < lines.len()
        invariant
            0 <= i <= lines@.len(),
            words.deep_view() == all_tokens(lines.deep_view().take(i as int)),
        decreases lines@.len() - i,
    {
        let line_words = parse_line(lines[i].as_str());
        let mut j: usize = 0;
        proof {
            assert(line_words.deep_view().take(0) =~= Seq::<Seq<char>>::empty());
            assert(words.deep_view() + line_words.deep_view().take(0) =~= words.deep_view());
        }
        let ghost before = words.deep_view();
        while j < line_words.len()
            invariant
                0 <= j <= line_words@.len(),
                words.deep_view() == before + line_words.deep_view().take(j as int),
            decreases line_words@.len() - j,
        {
            let ghost sofar = words.deep_view();
            words.push(line_words[j].clone());
            proof {
                assert(words.deep_view() =~= sofar.push(line_words.deep_view()[j as int]));
                assert(line_words.deep_view().take(j + 1) =~= line_words.deep_view().take(
                    j as int,
                ).push(line_words.deep_view()[j as int]));
                assert(words.deep_view() =~= before + line_words.deep_view().take(j + 1));
            }
            j += 1;
        }
        proof {
            assert(line_words.deep_view().take(line_words@.len() as int) =~= line_words.deep_view());
            assert(lines.deep_view().take(i + 1).drop_last() =~= lines.deep_view().take(i as int));
            assert(lines.deep_view().take(i + 1).last() == lines.deep_view()[i as int]);
            assert(line_words.deep_view() == tokenize(lines.deep_view()[i as int]));
            assert(words.deep_view() == all_tokens(lines.deep_view().take(i + 1)));
        }
        i += 1;
    }
    proof {
        assert(lines.deep_view().take(lines@.len() as int) =~= lines.deep_view());
    }
    words
}

/// How many of the sequences in `tokens` equal `w`.
pub open spec fn occurrences(tokens: Seq<Seq<char>>, w: Seq<char>) -> nat
    decreases tokens.len(),
{
    if tokens.len() == 0 {
        0
    } else {
        occurrences(tokens.drop_last(), w) + (if tokens.last() == w {
            1nat
        } else {
            0nat
        })
    }
}

/// The lowercased forms of `tokens`, in order.
pub open spec fn lowered(tokens: Seq<Seq<char>>) -> Seq<Seq<char>> {
    tokens.map_values(|t: Seq<char>| lower_of(t))
}

/// Counts the words, treated as lowercase: the resulting table records
/// exactly the lowercased forms of the given words, each with the number of
/// words that lowercase to it.
pub fn count_words(words: Vec<String>) -> (r: WordCounts)
    ensures
        r.wf(),
        forall|w: Seq<char>|
            #[trigger] r@.contains_key(w) <==> occurrences(lowered(words.deep_view()), w) > 0,
        forall|w: Seq<char>|
            #[trigger] r@.contains_key(w) ==> r@[w] == occurrences(lowered(words.deep_view()), w),
{
    let mut counts = WordCounts::new();
    let mut i: usize = 0;
    proof {
        assert(lowered(words.deep_view().take(0)) =~= Seq::<Seq<char>>::empty());
    }
    while i < words.len()
        invariant
            counts.wf(),
            0 <= i <= words@.len(),
            forall|w: Seq<char>|
                #[trigger] counts@.contains_key(w) <==> occurrences(
                    lowered(words.deep_view().take(i as int)),
                    w,
                ) > 0,
            forall|w: Seq<char>|
                #[trigger] counts@.contains_key(w) ==> counts@[w] == occurrences(
                    lowered(words.deep_view().take(i as int)),
                    w,
                ),
            forall|w: Seq<char>|
                occurrences(lowered(words.deep_view().take(i as int)), w) <= i,
        decreases words@.len() - i,
    {
        let lc = lowercase(words[i].as_str());
        let ghost prevtok = lowered(words.deep_view().take(i as int));
        let ghost newtok = lowered(words.deep_view().take(i + 1));
        proof {
            assert(newtok =~= prevtok.push(lc@));
            assert(newtok.drop_last() =~= prevtok);
            assert forall|w: Seq<char>| occurrences(newtok, w) == occurrences(prevtok, w) + (if lc@
                == w {
                1nat
            } else {
                0nat
            }) by {
                assert(occurrences(newtok.drop_last(), w) == occurrences(prevtok, w));
            }
        }
        counts.increment(lc);
        i += 1;
    }
    proof {
        assert(words.deep_view().take(words@.len() as int) =~= words.deep_view());
    }
    counts
}

} // verus!
