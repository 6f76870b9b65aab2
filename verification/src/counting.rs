use vstd::prelude::*;

verus! {

/// The frequency table: a mapping from word (as a sequence of characters) to
/// occurrence count.  Stored as two parallel vectors whose well-formedness
/// invariant keeps the recorded words distinct; the view is the mapping
/// itself.
#[derive(Debug, PartialEq, Eq)]
pub struct WordCounts {
    words: Vec<String>,
    counts: Vec<usize>,
}

impl View for WordCounts {
    type V = Map<Seq<char>, usize>;

    closed spec fn view(&self) -> Map<Seq<char>, usize> {
        Map::new(
            |w: Seq<char>|
                exists|i: int| 0 <= i < self.words@.len() && self.words@[i]@ == w,
            |w: Seq<char>|
                self.counts@[choose|i: int|
                    0 <= i < self.words@.len() && self.words@[i]@ == w],
        )
    }
}

impl WordCounts {
    /// The entries record each word once, and every word has a count.
    pub closed spec fn wf(&self) -> bool {
        &&& self.words@.len() == self.counts@.len()
        &&& forall|i: int, j: int|
            0 <= i < j < self.words@.len() ==> self.words@[i]@ != self.words@[j]@
    }

    /// How many distinct words the table records: the probability denominator.
    pub closed spec fn num_words(&self) -> nat {
        self.words@.len()
    }

    pub fn new() -> (r: WordCounts)
        ensures
            r.wf(),
            r@ == Map::<Seq<char>, usize>::empty(),
            r.num_words() == 0,
    {
        let r = WordCounts { words: Vec::new(), counts: Vec::new() };
        proof {
            assert(r@ =~= Map::<Seq<char>, usize>::empty());
        }
        r
    }

    pub fn len(&self) -> (r: usize)
        ensures
            r == self.num_words(),
    {
        self.words.len()
    }

    /// The index of `w` among the recorded words, if it is recorded.
    fn find(&self, w: &String) -> (r: Option<usize>)
        ensures
            match r {
                Some(i) => i < self.words@.len() && self.words@[i as int]@ == w@,
                None => !self@.contains_key(w@),
            },
    {
        let mut i: usize = 0;
        while i < self.words.len()
            invariant
                0 <= i <= self.words@.len(),
                forall|j: int| 0 <= j < i ==> self.words@[j]@ != w@,
            decreases self.words@.len() - i,
        {
            if self.words[i] == *w {
                return Some(i);
            }
            i += 1;
        }
        None
    }

    pub fn contains_key(&self, w: &String) -> (r: bool)
        ensures
            r == self@.contains_key(w@),
    {
        match self.find(w) {
            Some(i) => {
                proof {
                    let ghost ii = i as int;
                    assert(0 <= ii < self.words@.len() && self.words@[ii]@ == w@);
                }
                true
            },
            None => false,
        }
    }

    /// The count recorded for `w`, or `None` if `w` is not recorded.
    pub fn get(&self, w: &String) -> (r: Option<usize>)
        requires
            self.wf(),
        ensures
            r == (if self@.contains_key(w@) {
                Some(self@[w@])
            } else {
                None::<usize>
            }),
    {
        match self.find(w) {
            Some(i) => {
                proof {
                    let ii = choose|j: int|
                        0 <= j < self.words@.len() && self.words@[j]@ == w@;
                    assert(ii == i as int);
                }
                Some(self.counts[i])
            },
            None => None,
        }
    }

    /// Records `count` for `word`, replacing any previously recorded count.
    pub fn insert(&mut self, word: String, count: usize)
        requires
            old(self).wf(),
        ensures
            final(self).wf(),
            final(self)@ == old(self)@.insert(word@, count),
            final(self).num_words() == (if old(self)@.contains_key(word@) {
                old(self).num_words()
            } else {
                old(self).num_words() + 1
            }),
    {
        let found = self.find(&word);
        let ghost prev = *self;
        match found {
            Some(i) => {
                self.counts[i] = count;
                proof {
                    lemma_update_view(prev, *self, word@, count, i as int);
                }
            },
            None => {
                self.words.push(word);
                self.counts.push(count);
                proof {
                    lemma_push_view(prev, *self, word@, count);
                }
            },
        }
    }
    /// Records one more occurrence of `word`: its count rises by one, from
    /// zero if it was not yet recorded.
    pub fn increment(&mut self, word: String)
        requires
            old(self).wf(),
            old(self)@.contains_key(word@) ==> old(self)@[word@] < usize::MAX,
        ensures
            final(self).wf(),
            final(self)@ == old(self)@.insert(
                word@,
                (if old(self)@.contains_key(word@) {
                    old(self)@[word@] + 1
                } else {
                    1
                }) as usize,
            ),
            final(self).num_words() == (if old(self)@.contains_key(word@) {
                old(self).num_words()
            } else {
                old(self).num_words() + 1
            }),
    {
        let cur = self.get(&word);
        match cur {
            Some(c) => self.insert(word, c + 1),
            None => self.insert(word, 1),
        }
    }
}

/// The probability denominator is the size of the vocabulary: for a
/// well-formed table, `num_words` is the number of distinct recorded words.
pub proof fn lemma_num_words_is_vocabulary_size(t: WordCounts)
    requires
        t.wf(),
    ensures
        t@.dom().finite(),
        t@.dom().len() == t.num_words(),
{
    let views = t.words@.map_values(|s: String| s@);
    assert(views.no_duplicates()) by {
        assert forall|i: int, j: int|
            0 <= i < views.len() && 0 <= j < views.len() && i != j implies views[i] != views[j] by {
            if i < j {
                assert(t.words@[i]@ != t.words@[j]@);
            } else {
                assert(t.words@[j]@ != t.words@[i]@);
            }
        }
    }
    assert(t@.dom() =~= views.to_set()) by {
        assert forall|w: Seq<char>| #[trigger] t@.dom().contains(w) implies views.to_set().contains(
            w,
        ) by {
            let i = choose|i: int| 0 <= i < t.words@.len() && t.words@[i]@ == w;
            assert(views[i] == w);
            assert(views.contains(w));
        }
        assert forall|w: Seq<char>| #[trigger] views.to_set().contains(w) implies t@.dom().contains(
            w,
        ) by {
            let i = choose|i: int| 0 <= i < views.len() && views[i] == w;
            assert(t.words@[i]@ == w);
        }
    }
    vstd::seq_lib::seq_to_set_is_finite(views);
    views.unique_seq_to_set();
}

/// Replacing the count at the index where `w` is recorded updates the mapping
/// at `w` and nothing else.
proof fn lemma_update_view(prev: WordCounts, cur: WordCounts, w: Seq<char>, count: usize, i: int)
    requires
        prev.wf(),
        0 <= i < prev.words@.len(),
        prev.words@[i]@ == w,
        cur.words@ == prev.words@,
        cur.counts@ == prev.counts@.update(i, count),
    ensures
        cur.wf(),
        cur@ == prev@.insert(w, count),
        cur.num_words() == prev.num_words(),
{
    assert forall|v: Seq<char>| cur@.dom().contains(v) implies prev@.insert(
        w,
        count,
    ).dom().contains(v) by {}
    assert(cur@ =~= prev@.insert(w, count)) by {
        assert forall|v: Seq<char>| #[trigger] cur@.dom().contains(v) implies cur@[v] == prev@.insert(
            w,
            count,
        )[v] by {
            let j = choose|j: int| 0 <= j < cur.words@.len() && cur.words@[j]@ == v;
            if v == w {
                assert(j == i);
            } else {
                assert(j != i);
            }
        }
    }
}

/// Appending a word that is not yet recorded extends the mapping by exactly
/// that word.
proof fn lemma_push_view(prev: WordCounts, cur: WordCounts, w: Seq<char>, count: usize)
    requires
        prev.wf(),
        !prev@.contains_key(w),
        cur.words@.len() == prev.words@.len() + 1,
        cur.words@ == prev.words@.push(cur.words@[prev.words@.len() as int]),
        cur.words@[prev.words@.len() as int]@ == w,
        cur.counts@ == prev.counts@.push(count),
    ensures
        cur.wf(),
        cur@ == prev@.insert(w, count),
        cur.num_words() == prev.num_words() + 1,
{
    let n = prev.words@.len() as int;
    assert forall|i: int, j: int|
        0 <= i < j < cur.words@.len() implies cur.words@[i]@ != cur.words@[j]@ by {
        if j < n {
            assert(prev.words@[i]@ != prev.words@[j]@);
        } else {
            assert(cur.words@[j]@ == w);
            if cur.words@[i]@ == w {
                assert(prev.words@[i]@ == w);
            }
        }
    }
    assert(cur@ =~= prev@.insert(w, count)) by {
        assert forall|v: Seq<char>| #[trigger] prev@.insert(w, count).dom().contains(
            v,
        ) implies cur@.dom().contains(v) by {
            if v == w {
                assert(cur.words@[n]@ == w);
            } else {
                let j = choose|j: int| 0 <= j < prev.words@.len() && prev.words@[j]@ == v;
                assert(cur.words@[j]@ == v);
            }
        }
        assert forall|v: Seq<char>| #[trigger] cur@.dom().contains(v) implies cur@[v] == prev@.insert(
            w,
            count,
        )[v] by {
            let j = choose|j: int| 0 <= j < cur.words@.len() && cur.words@[j]@ == v;
            if v == w {
                assert(j == n);
            } else {
                assert(j < n);
                assert(prev.words@[j]@ == v);
                let k = choose|k: int| 0 <= k < prev.words@.len() && prev.words@[k]@ == v;
                assert(k == j);
            }
        }
    }
}

} // verus!
