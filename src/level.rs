use vstd::prelude::*;

verus! {

/// One branch of a level: a character, whether the path that ends here spells a
/// stored word, and the level that holds the continuations of that path.
pub struct Letter {
    pub letter: char,
    pub is_end_of_word: bool,
    pub level_below: Option<Box<Level>>,
}

/// The letters at one depth of the tree, kept in ascending order of character.
pub struct Level {
    pub letter_vector: Vec<Letter>,
}

/// Strictly ascending characters: sorted, with no character twice.
pub open spec fn letters_sorted(s: Seq<Letter>) -> bool {
    forall|i: int, j: int| 0 <= i < j < s.len() ==> s[i].letter < s[j].letter
}

impl Letter {
    /// A letter that ends no word and has nothing below it.
    pub open spec fn bare(c: char) -> Letter {
        Letter { letter: c, is_end_of_word: false, level_below: None }
    }
}

impl Level {
    /// Whether some letter of this level holds `c`.
    pub open spec fn has_letter(self, c: char) -> bool {
        exists|i: int| 0 <= i < self.letter_vector@.len() && self.letter_vector@[i].letter == c
    }

    /// The letter of this level that holds `c`, if there is one.
    pub open spec fn letter_for(self, c: char) -> Option<Letter> {
        if self.has_letter(c) {
            let i = choose|i: int|
                0 <= i < self.letter_vector@.len() && self.letter_vector@[i].letter == c;
            Some(self.letter_vector@[i])
        } else {
            None
        }
    }

    /// Whether the path from this level spells `w` and ends at a letter that
    /// ends a word.
    pub open spec fn has_word(self, w: Seq<char>) -> bool
        decreases w.len(),
    {
        if w.len() == 0 {
            false
        } else {
            match self.letter_for(w[0]) {
                None => false,
                Some(l) => if w.len() == 1 {
                    l.is_end_of_word
                } else {
                    match l.level_below {
                        Some(below) => below.has_word(w.drop_first()),
                        None => false,
                    }
                },
            }
        }
    }

    /// Whether `p` is non-empty and spelled by a path of letters from this level.
    pub open spec fn has_path(self, p: Seq<char>) -> bool
        decreases p.len(),
    {
        if p.len() == 0 {
            false
        } else {
            match self.letter_for(p[0]) {
                None => false,
                Some(l) => if p.len() == 1 {
                    true
                } else {
                    match l.level_below {
                        Some(below) => below.has_path(p.drop_first()),
                        None => false,
                    }
                },
            }
        }
    }

    /// The letter at the end of the path that spells `p`, if `p` is a path.
    pub open spec fn letter_at(self, p: Seq<char>) -> Option<Letter>
        decreases p.len(),
    {
        if p.len() == 0 {
            None
        } else {
            match self.letter_for(p[0]) {
                None => None,
                Some(l) => if p.len() == 1 {
                    Some(l)
                } else {
                    match l.level_below {
                        Some(below) => below.letter_at(p.drop_first()),
                        None => None,
                    }
                },
            }
        }
    }

    /// The length of the longest prefix of `s` that is a path from this level.
    pub open spec fn matched(self, s: Seq<char>) -> nat
        decreases s.len(),
    {
        if s.len() == 0 {
            0
        } else {
            match self.letter_for(s[0]) {
                None => 0,
                Some(l) => 1 + match l.level_below {
                    Some(below) => below.matched(s.drop_first()),
                    None => 0,
                },
            }
        }
    }

    /// Every level of the subtree keeps its letters strictly ascending.
    pub open spec fn wf(self) -> bool
        decreases self,
    {
        &&& letters_sorted(self.letter_vector@)
        &&& forall|i: int|
            0 <= i < self.letter_vector@.len() ==> match #[trigger] self.letter_vector@[i].level_below {
                Some(below) => below.wf(),
                None => true,
            }
    }
}

impl Level {
    /// In a sorted level the letter at index `i` is the one found for its character.
    pub proof fn lemma_letter_found(self, i: int)
        requires
            letters_sorted(self.letter_vector@),
            0 <= i < self.letter_vector@.len(),
        ensures
            self.letter_for(self.letter_vector@[i].letter) == Some(self.letter_vector@[i]),
    {
        let c = self.letter_vector@[i].letter;
        assert(self.has_letter(c));
        let j = choose|j: int| 0 <= j < self.letter_vector@.len() && self.letter_vector@[j].letter == c;
        assert(j == i);
    }

    /// A path of the level is at most as long as the part of `s` it matches:
    /// the prefixes of `s` that are paths are exactly those of length
    /// `1 ..= matched(s)`.
    pub proof fn lemma_matched(self, s: Seq<char>, k: int)
        requires
            0 <= k <= s.len(),
        ensures
            self.matched(s) <= s.len(),
            self.has_path(s.subrange(0, k)) <==> 1 <= k <= self.matched(s),
        decreases s.len(),
    {
        if s.len() > 0 {
            match self.letter_for(s[0]) {
                None => {},
                Some(l) => {
                    match l.level_below {
                        Some(below) => {
                            if k >= 1 {
                                below.lemma_matched(s.drop_first(), k - 1);
                                assert(s.subrange(0, k).drop_first() =~= s.drop_first().subrange(0, k - 1));
                            } else {
                                below.lemma_matched(s.drop_first(), 0);
                            }
                        },
                        None => {},
                    }
                },
            }
        }
    }

    /// Replacing the letter at `idx` by one of the same character, or inserting
    /// a letter of a new character there, changes what is found for that
    /// character only.
    pub proof fn lemma_put_letter(old: Level, new: Level, idx: int, l: Letter)
        requires
            letters_sorted(old.letter_vector@),
            letters_sorted(new.letter_vector@),
            ({
                ||| (0 <= idx < old.letter_vector@.len() && old.letter_vector@[idx].letter == l.letter
                    && new.letter_vector@ == old.letter_vector@.update(idx, l))
                ||| (0 <= idx <= old.letter_vector@.len() && !old.has_letter(l.letter)
                    && new.letter_vector@ == old.letter_vector@.insert(idx, l))
            }),
        ensures
            forall|d: char| #[trigger]
                new.letter_for(d) == if d == l.letter {
                    Some(l)
                } else {
                    old.letter_for(d)
                },
    {
        assert forall|d: char| #[trigger]
            new.letter_for(d) == if d == l.letter {
                Some(l)
            } else {
                old.letter_for(d)
            } by {
            new.lemma_letter_found(idx);
            if d != l.letter {
                if old.has_letter(d) {
                    let j = choose|j: int|
                        0 <= j < old.letter_vector@.len() && old.letter_vector@[j].letter == d;
                    old.lemma_letter_found(j);
                    let k = if new.letter_vector@.len() == old.letter_vector@.len() || j < idx {
                        j
                    } else {
                        j + 1
                    };
                    assert(new.letter_vector@[k] == old.letter_vector@[j]);
                    new.lemma_letter_found(k);
                } else if new.has_letter(d) {
                    let k = choose|k: int|
                        0 <= k < new.letter_vector@.len() && new.letter_vector@[k].letter == d;
                    let j = if new.letter_vector@.len() == old.letter_vector@.len() || k < idx {
                        k
                    } else {
                        k - 1
                    };
                    assert(old.letter_vector@[j].letter == d);
                }
            }
        }
    }

    /// Adds the word `s[i..]` below this level. Returns how many letters were
    /// created, one for each prefix of `s[i..]` that was not yet a path, and
    /// whether the word is new.
    pub(crate) fn insert_suffix(&mut self, s: &Vec<char>, i: usize) -> (r: (usize, bool))
        requires
            old(self).wf(),
            i < s@.len(),
        ensures
            final(self).wf(),
            forall|w: Seq<char>| #[trigger]
                final(self).has_word(w) <==> (old(self).has_word(w) || w == s@.subrange(
                    i as int,
                    s@.len() as int,
                )),
            forall|p: Seq<char>| #[trigger]
                final(self).has_path(p) <==> (old(self).has_path(p) || (0 < p.len()
                    && p.is_prefix_of(s@.subrange(i as int, s@.len() as int)))),
            r.0 == (s@.len() - i) - old(self).matched(s@.subrange(i as int, s@.len() as int)),
            r.1 == !old(self).has_word(s@.subrange(i as int, s@.len() as int)),
        decreases s@.len() - i,
    {
        let ghost suffix = s@.subrange(i as int, s@.len() as int);
        let c: char = s[i];
        let (idx, inserted) = self.binary_insert(c);
        let ghost mid = *self;
        proof {
            if inserted {
                assert(mid.letter_vector@ == old(self).letter_vector@.insert(idx as int, Letter::bare(c)));
                assert(mid.letter_vector@.len() == old(self).letter_vector@.len() + 1);
            }
        }
        let ghost l1 = self.letter_vector@[idx as int];
        proof {
            mid.lemma_letter_found(idx as int);
            if !inserted {
                old(self).lemma_letter_found(idx as int);
            }
        }
        let ghost rest = s@.subrange(i + 1, s@.len() as int);
        proof {
            assert(suffix[0] == c);
            assert(suffix.drop_first() =~= rest);
            assert forall|j: int| 0 <= j < mid.letter_vector@.len() implies match #[trigger] mid.letter_vector@[j].level_below {
                Some(b) => b.wf(),
                None => true,
            } by {
                if inserted && j > idx {
                    assert(mid.letter_vector@[j] == old(self).letter_vector@[j - 1]);
                } else if !inserted || j < idx {
                    assert(mid.letter_vector@[j] == old(self).letter_vector@[j]);
                }
            }
            assert(mid.wf());
        }
        let letter = &mut self.letter_vector[idx];
        let len: usize = s.len();
        if i + 1 == len {
            let was_end: bool = letter.is_end_of_word;
            letter.is_end_of_word = true;
            proof {
                let nl = self.letter_vector@[idx as int];
                assert(nl == Letter { is_end_of_word: true, ..l1 });
                assert(!inserted ==> old(self).letter_for(c) == Some(l1));
                if !inserted {
                    if let Some(b) = l1.level_below {
                        assert(b.matched(suffix.drop_first()) == 0);
                    }
                }
                if inserted {
                    assert(self.letter_vector@ =~= old(self).letter_vector@.insert(idx as int, nl));
                } else {
                    assert(self.letter_vector@ =~= old(self).letter_vector@.update(idx as int, nl));
                }
                Level::lemma_put_letter(*old(self), *self, idx as int, nl);
                assert(self.wf()) by {
                    assert forall|j: int| 0 <= j < self.letter_vector@.len() implies match #[trigger] self.letter_vector@[j].level_below {
                        Some(b) => b.wf(),
                        None => true,
                    } by {
                        assert(self.letter_vector@[j].level_below == mid.letter_vector@[j].level_below);
                    }
                }
                assert forall|w: Seq<char>| #[trigger]
                    self.has_word(w) <==> (old(self).has_word(w) || w == suffix) by {
                    if w.len() == 1 && w[0] == c {
                        assert(w =~= suffix);
                    }
                }
                assert forall|p: Seq<char>| #[trigger]
                    self.has_path(p) <==> (old(self).has_path(p) || (0 < p.len()
                        && p.is_prefix_of(suffix))) by {
                    if p.len() == 1 && p[0] == c {
                        assert(p =~= suffix);
                    }
                }
            }
            (if inserted { 1 } else { 0 }, !was_end)
        } else {
            let mut below: Box<Level> = match letter.level_below.take() {
                Some(b) => b,
                None => Box::new(Level::new()),
            };
            let ghost below0 = *below;
            let (n, fresh) = below.insert_suffix(s, i + 1);
            let ghost below1 = *below;
            letter.level_below = Some(below);
            proof {
                let nl = self.letter_vector@[idx as int];
                assert(nl.is_end_of_word == l1.is_end_of_word);
                assert(nl.level_below == Some(Box::new(below1)));
                assert(l1.level_below is Some ==> below0 == *l1.level_below.unwrap());
                assert(l1.level_below is None ==> below0.letter_vector@.len() == 0);
                assert(!inserted ==> old(self).letter_for(c) == Some(l1));
                assert(inserted ==> old(self).letter_for(c) is None && l1 == Letter::bare(c));
                if l1.level_below is None {
                    assert(below0.matched(rest) == 0);
                }
                assert(old(self).matched(suffix) == if inserted {
                    0
                } else {
                    1 + below0.matched(rest)
                });
                if inserted {
                    assert(self.letter_vector@ =~= old(self).letter_vector@.insert(idx as int, nl));
                } else {
                    assert(self.letter_vector@ =~= old(self).letter_vector@.update(idx as int, nl));
                }
                Level::lemma_put_letter(*old(self), *self, idx as int, nl);
                assert(below0.wf() && below0.letter_vector@.len() == 0 ==> below0.matched(rest) == 0);
                assert(self.wf()) by {
                    assert forall|j: int| 0 <= j < self.letter_vector@.len() implies match #[trigger] self.letter_vector@[j].level_below {
                        Some(b) => b.wf(),
                        None => true,
                    } by {
                        if j != idx {
                            assert(self.letter_vector@[j] == mid.letter_vector@[j]);
                        }
                    }
                }
                assert forall|w: Seq<char>| #[trigger]
                    self.has_word(w) <==> (old(self).has_word(w) || w == suffix) by {
                    if w.len() == 0 {
                    } else if w[0] != c {
                        assert(self.letter_for(w[0]) == old(self).letter_for(w[0]));
                    } else if w.len() == 1 {
                        assert(w.len() != suffix.len());
                    } else {
                        let w1 = w.drop_first();
                        assert(self.has_word(w) == below1.has_word(w1));
                        if l1.level_below is None {
                            assert(!below0.has_word(w1));
                        }
                        assert(old(self).has_word(w) == below0.has_word(w1));
                        assert(w =~= seq![c] + w1);
                        assert(suffix =~= seq![c] + rest);
                    }
                }
                assert forall|p: Seq<char>| #[trigger]
                    self.has_path(p) <==> (old(self).has_path(p) || (0 < p.len()
                        && p.is_prefix_of(suffix))) by {
                    if p.len() == 0 {
                    } else if p[0] != c {
                        assert(self.letter_for(p[0]) == old(self).letter_for(p[0]));
                    } else if p.len() == 1 {
                        assert(p =~= suffix.subrange(0, 1));
                    } else {
                        let q = p.drop_first();
                        assert(self.has_path(p) == below1.has_path(q));
                        if l1.level_below is None {
                            assert(!below0.has_path(q));
                        }
                        assert(old(self).has_path(p) == below0.has_path(q));
                        assert(p =~= seq![c] + q);
                        if q.is_prefix_of(rest) {
                            assert(suffix.subrange(0, p.len() as int) =~= seq![c] + rest.subrange(0, q.len() as int));
                        }
                        if p.is_prefix_of(suffix) {
                            assert(q =~= rest.subrange(0, q.len() as int));
                        }
                    }
                }
            }
            proof {
                assert(old(self).has_word(suffix) == below0.has_word(rest));
            }
            (if inserted { n + 1 } else { n }, fresh)
        }
    }

    /// A path is a word exactly when the letter at its end ends a word.
    pub proof fn lemma_path_end(self, p: Seq<char>)
        ensures
            self.has_path(p) == self.letter_at(p) is Some,
            self.has_word(p) == (self.letter_at(p) matches Some(l) && l.is_end_of_word),
        decreases p.len(),
    {
        if p.len() > 1 {
            if let Some(l) = self.letter_for(p[0]) {
                if let Some(below) = l.level_below {
                    below.lemma_path_end(p.drop_first());
                }
            }
        }
    }

    /// The letter at the end of a path of a well-formed level has a
    /// well-formed level below it.
    pub proof fn lemma_letter_at_wf(self, p: Seq<char>)
        requires
            self.wf(),
        ensures
            self.letter_at(p) matches Some(l) ==> match l.level_below {
                Some(below) => below.wf(),
                None => true,
            },
        decreases p.len(),
    {
        if p.len() > 0 {
            if let Some(l) = self.letter_for(p[0]) {
                let j = choose|j: int|
                    0 <= j < self.letter_vector@.len() && self.letter_vector@[j].letter == p[0];
                assert(self.letter_vector@[j] == l);
                if p.len() > 1 {
                    if let Some(below) = l.level_below {
                        below.lemma_letter_at_wf(p.drop_first());
                    }
                }
            }
        }
    }

    /// Follows the path that spells `s[i..]` and returns the letter at its end.
    pub(crate) fn walk<'a>(&'a self, s: &Vec<char>, i: usize) -> (r: Option<&'a Letter>)
        requires
            self.wf(),
            i < s@.len(),
        ensures
            match r {
                Some(l) => self.letter_at(s@.subrange(i as int, s@.len() as int)) == Some(*l),
                None => self.letter_at(s@.subrange(i as int, s@.len() as int)) is None,
            },
        decreases s@.len() - i,
    {
        let ghost suffix = s@.subrange(i as int, s@.len() as int);
        let ghost rest = s@.subrange(i + 1, s@.len() as int);
        assert(suffix.drop_first() =~= rest);
        match self.find(s[i]) {
            None => None,
            Some(idx) => {
                proof {
                    self.lemma_letter_found(idx as int);
                }
                let l = &self.letter_vector[idx];
                let len: usize = s.len();
                if i + 1 == len {
                    Some(l)
                } else {
                    match &l.level_below {
                        Some(below) => below.walk(s, i + 1),
                        None => None,
                    }
                }
            },
        }
    }

    /// An empty level.
    pub fn new() -> (r: Level)
        ensures
            r.letter_vector@.len() == 0,
            r.wf(),
    {
        Level { letter_vector: Vec::new() }
    }

    /// Binary search for `c`: `Ok` with its index, or `Err` with the index at
    /// which it would be inserted to keep the order.
    fn search(&self, c: char) -> (r: Result<usize, usize>)
        requires
            letters_sorted(self.letter_vector@),
        ensures
            match r {
                Ok(i) => i < self.letter_vector@.len() && self.letter_vector@[i as int].letter == c,
                Err(i) => {
                    &&& i <= self.letter_vector@.len()
                    &&& forall|j: int| 0 <= j < i ==> self.letter_vector@[j].letter < c
                    &&& forall|j: int|
                        i <= j < self.letter_vector@.len() ==> c < self.letter_vector@[j].letter
                },
            },
    {
        let mut lo: usize = 0;
        let mut hi: usize = self.letter_vector.len();
        while lo < hi
            invariant
                letters_sorted(self.letter_vector@),
                lo <= hi <= self.letter_vector@.len(),
                forall|j: int| 0 <= j < lo ==> self.letter_vector@[j].letter < c,
                forall|j: int| hi <= j < self.letter_vector@.len() ==> c < self.letter_vector@[j].letter,
            decreases hi - lo,
        {
            let mid: usize = lo + (hi - lo) / 2;
            let m: char = self.letter_vector[mid].letter;
            if m == c {
                return Ok(mid);
            } else if m < c {
                lo = mid + 1;
            } else {
                hi = mid;
            }
        }
        Err(lo)
    }

    /// The index of the letter that holds `c`, without changing the level.
    pub fn find(&self, c: char) -> (r: Option<usize>)
        requires
            letters_sorted(self.letter_vector@),
        ensures
            r is Some <==> self.has_letter(c),
            r matches Some(i) ==> i < self.letter_vector@.len() && self.letter_vector@[i as int].letter == c,
    {
        match self.search(c) {
            Ok(i) => Some(i),
            Err(_) => None,
        }
    }

    /// Finds the letter that holds `plain_letter`, or inserts a bare one at the
    /// place that keeps the order. Returns its index and whether it was inserted.
    pub fn binary_insert(&mut self, plain_letter: char) -> (r: (usize, bool))
        requires
            letters_sorted(old(self).letter_vector@),
        ensures
            letters_sorted(final(self).letter_vector@),
            r.0 < final(self).letter_vector@.len(),
            final(self).letter_vector@[r.0 as int].letter == plain_letter,
            r.1 == !old(self).has_letter(plain_letter),
            r.1 ==> final(self).letter_vector@.len() == old(self).letter_vector@.len() + 1,
            !r.1 ==> final(self).letter_vector@ == old(self).letter_vector@,
            r.1 ==> final(self).letter_vector@ == old(self).letter_vector@.insert(
                r.0 as int,
                Letter::bare(plain_letter),
            ),
    {
        match self.search(plain_letter) {
            Ok(i) => (i, false),
            Err(i) => {
                let letter = Letter { letter: plain_letter, is_end_of_word: false, level_below: None };
                self.letter_vector.insert(i, letter);
                (i, true)
            },
        }
    }
}

} // verus!
