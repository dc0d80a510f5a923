//! Small sets of letters.

use vstd::prelude::*;

verus! {

/// A finite set of letters that remembers the order of first insertion.
#[derive(Debug)]
pub struct LetterSet {
    letters: Vec<char>,
}

impl View for LetterSet {
    type V = Set<char>;

    /// The letters of the set.
    open spec fn view(&self) -> Set<char> {
        self.ordered().to_set()
    }
}

impl LetterSet {
    /// The letters in the order in which they entered the set.
    pub closed spec fn ordered(&self) -> Seq<char> {
        self.letters@
    }

    /// No letter is listed twice. Every operation of this type keeps it so.
    pub open spec fn wf(&self) -> bool {
        self.ordered().no_duplicates()
    }

    /// The empty set.
    pub fn new() -> (s: LetterSet)
        ensures
            s.wf(),
            s@ == Set::<char>::empty(),
            s.ordered() == Seq::<char>::empty(),
    {
        let s = LetterSet { letters: Vec::new() };
        assert(s.ordered().to_set() =~= Set::<char>::empty());
        s
    }

    /// The number of letters in the set.
    pub fn len(&self) -> (n: usize)
        ensures
            n == self.ordered().len(),
            self.wf() ==> n == self@.len(),
    {
        proof {
            if self.wf() {
                self.ordered().unique_seq_to_set();
            }
        }
        self.letters.len()
    }

    /// Whether the set holds no letter.
    pub fn is_empty(&self) -> (b: bool)
        ensures
            b == (self.ordered().len() == 0),
            b == (self@ == Set::<char>::empty()),
    {
        proof {
            if self.ordered().len() == 0 {
                assert(self@ =~= Set::<char>::empty());
            } else {
                assert(self@.contains(self.ordered()[0]));
            }
        }
        self.letters.len() == 0
    }

    /// The letter that entered the set as number `i`.
    pub fn letter(&self, i: usize) -> (c: char)
        requires
            i < self.ordered().len(),
        ensures
            c == self.ordered()[i as int],
            self@.contains(c),
    {
        self.letters[i]
    }

    /// Whether `c` is in the set.
    pub fn contains(&self, c: char) -> (b: bool)
        ensures
            b == self@.contains(c),
    {
        let mut i: usize = 0;
        while i < self.letters.len()
            invariant
                i <= self.letters@.len(),
                forall|j: int| 0 <= j < i ==> self.letters@[j] != c,
            decreases self.letters@.len() - i,
        {
            if self.letters[i] == c {
                return true;
            }
            i += 1;
        }
        false
    }

    /// Puts `c` into the set; says whether it was new.
    pub fn insert(&mut self, c: char) -> (fresh: bool)
        ensures
            final(self)@ == old(self)@.insert(c),
            fresh == !old(self)@.contains(c),
            final(self).ordered() == if fresh {
                old(self).ordered().push(c)
            } else {
                old(self).ordered()
            },
            old(self).wf() ==> final(self).wf(),
    {
        if self.contains(c) {
            assert(self@ =~= self@.insert(c));
            false
        } else {
            let ghost before = self.letters@;
            self.letters.push(c);
            assert(self.letters@.to_set() =~= before.to_set().insert(c)) by {
                assert forall|x: char| self.letters@.to_set().contains(x) implies before.to_set().insert(c).contains(x) by {
                    let j = choose|j: int| 0 <= j < self.letters@.len() && self.letters@[j] == x;
                    if j < before.len() {
                        assert(before[j] == x);
                    }
                }
                assert forall|x: char| before.to_set().insert(c).contains(x) implies self.letters@.to_set().contains(x) by {
                    if x == c {
                        assert(self.letters@[before.len() as int] == c);
                    } else {
                        let j = choose|j: int| 0 <= j < before.len() && before[j] == x;
                        assert(self.letters@[j] == x);
                    }
                }
            }
            true
        }
    }

    /// Empties the set.
    pub fn clear(&mut self)
        ensures
            final(self)@ == Set::<char>::empty(),
            final(self).ordered() == Seq::<char>::empty(),
            final(self).wf(),
    {
        self.letters.clear();
        assert(self.ordered().to_set() =~= Set::<char>::empty());
    }
}

impl Clone for LetterSet {
    fn clone(&self) -> (s: LetterSet)
        ensures
            s@ == self@,
            s.ordered() == self.ordered(),
    {
        LetterSet { letters: self.letters.clone() }
    }
}

} // verus!
