use vstd::prelude::*;

verus! {

/// A collection of candidate words with set-semantics contracts: what matters
/// about it is which words it contains.  The view is the sequence of the
/// members' character sequences, in insertion order.  `insert` collapses
/// duplicates; `add` appends unconditionally, for bulk generation where a
/// membership scan per word would be quadratic.
#[derive(Debug, PartialEq, Eq)]
pub struct WordSet {
    items: Vec<String>,
}

impl View for WordSet {
    type V = Seq<Seq<char>>;

    closed spec fn view(&self) -> Seq<Seq<char>> {
        self.items.deep_view()
    }
}

impl WordSet {
    pub fn new() -> (r: WordSet)
        ensures
            r@ == Seq::<Seq<char>>::empty(),
    {
        let r = WordSet { items: Vec::new() };
        proof {
            assert(r@ =~= Seq::<Seq<char>>::empty());
        }
        r
    }

    pub fn len(&self) -> (r: usize)
        ensures
            r == self@.len(),
    {
        self.items.len()
    }

    pub fn get(&self, i: usize) -> (r: &String)
        requires
            i < self@.len(),
        ensures
            r@ == self@[i as int],
    {
        &self.items[i]
    }

    pub fn contains(&self, w: &String) -> (r: bool)
        ensures
            r == self@.contains(w@),
    {
        let mut i: usize = 0;
        while i < self.items.len()
            invariant
                0 <= i <= self.items@.len(),
                forall|j: int| 0 <= j < i ==> self.items@[j]@ != w@,
            decreases self.items@.len() - i,
        {
            if self.items[i] == *w {
                assert(self@[i as int] == w@);
                return true;
            }
            i += 1;
        }
        assert(!self@.contains(w@)) by {
            assert forall|j: int| 0 <= j < self@.len() implies self@[j] != w@ by {
                assert(self@[j] == self.items@[j]@);
            }
        }
        false
    }

    /// Appends `w` whether or not an equal word is already present.  The
    /// members it contains are those it contained before, and `w`.
    pub fn add(&mut self, w: String)
        ensures
            final(self)@ == old(self)@.push(w@),
            forall|x: Seq<char>| #[trigger] final(self)@.contains(x) <==> (old(
                self,
            )@.contains(x) || x == w@),
    {
        let ghost prev = self@;
        self.items.push(w);
        proof {
            assert(self@ =~= prev.push(w@));
            assert forall|x: Seq<char>| #[trigger] self@.contains(x) implies (prev.contains(x) || x
                == w@) by {
                let j = choose|j: int| 0 <= j < self@.len() && self@[j] == x;
                if j < prev.len() {
                    assert(prev[j] == x);
                }
            }
            assert forall|x: Seq<char>| prev.contains(x) || x == w@ implies #[trigger] self@.contains(
                x,
            ) by {
                if prev.contains(x) {
                    let j = choose|j: int| 0 <= j < prev.len() && prev[j] == x;
                    assert(self@[j] == x);
                } else {
                    assert(self@[prev.len() as int] == w@);
                }
            }
        }
    }

    /// Adds `w` unless an equal word is already present, so that members stay
    /// distinct and keep their first-insertion position.
    pub fn insert(&mut self, w: String)
        ensures
            final(self)@ == (if old(self)@.contains(w@) {
                old(self)@
            } else {
                old(self)@.push(w@)
            }),
            forall|x: Seq<char>| #[trigger] final(self)@.contains(x) <==> (old(
                self,
            )@.contains(x) || x == w@),
    {
        let present = self.contains(&w);
        if !present {
            let ghost prev = self@;
            self.items.push(w);
            proof {
                assert(self@ =~= prev.push(w@));
                assert forall|x: Seq<char>| #[trigger] self@.contains(x) implies (prev.contains(x)
                    || x == w@) by {
                    let j = choose|j: int| 0 <= j < self@.len() && self@[j] == x;
                    if j < prev.len() {
                        assert(prev[j] == x);
                    }
                }
                assert forall|x: Seq<char>| prev.contains(x) || x == w@ implies #[trigger] self@.contains(
                    x,
                ) by {
                    if prev.contains(x) {
                        let j = choose|j: int| 0 <= j < prev.len() && prev[j] == x;
                        assert(self@[j] == x);
                    } else {
                        assert(self@[prev.len() as int] == w@);
                    }
                }
            }
        }
    }
}

} // verus!
