use crate::level::{Letter, Level};
use crate::lex::{
    is_sorted_listing, lemma_concat_sorted, lemma_lex_prepend_all, lemma_prepend_all_sorted, lex_lt,
    prepend_all, strictly_sorted,
};
use crate::text::string_from_chars;
use vstd::prelude::*;

verus! {

/// The characters of each string, in order.
pub open spec fn strings_view(s: Seq<String>) -> Seq<Seq<char>> {
    s.map_values(|x: String| x@)
}

/// Putting words in front distributes over concatenation and composes by
/// concatenating the words put in front.
proof fn lemma_prepend_all_split(p: Seq<char>, q: Seq<char>, a: Seq<Seq<char>>, b: Seq<Seq<char>>)
    ensures
        prepend_all(p, a + b) == prepend_all(p, a) + prepend_all(p, b),
        prepend_all(p, prepend_all(q, a)) == prepend_all(p + q, a),
{
    assert(prepend_all(p, a + b) =~= prepend_all(p, a) + prepend_all(p, b));
    assert forall|k: int| 0 <= k < a.len() implies #[trigger] prepend_all(p, prepend_all(q, a))[k]
        == prepend_all(p + q, a)[k] by {
        assert(p + (q + a[k]) =~= (p + q) + a[k]);
    }
    assert(prepend_all(p, prepend_all(q, a)) =~= prepend_all(p + q, a));
}

impl Letter {
    /// Whether the path through this letter, followed by `rest`, spells a word.
    pub open spec fn word_after(self, rest: Seq<char>) -> bool {
        if rest.len() == 0 {
            self.is_end_of_word
        } else {
            match self.level_below {
                Some(below) => below.has_word(rest),
                None => false,
            }
        }
    }

    /// The words through this letter, spelled from this letter on, in
    /// depth-first order: the letter alone if it ends a word, then the
    /// longer words below it.
    pub open spec fn listing(self) -> Seq<Seq<char>>
        decreases self, 1int,
    {
        self.own_listing() + self.longer_listing()
    }

    /// The letter alone, if it ends a word.
    pub open spec fn own_listing(self) -> Seq<Seq<char>> {
        if self.is_end_of_word {
            seq![seq![self.letter]]
        } else {
            seq![]
        }
    }

    /// The longer words below the letter, spelled from the letter on.
    pub open spec fn longer_listing(self) -> Seq<Seq<char>>
        decreases self, 0int,
    {
        match self.level_below {
            Some(below) => prepend_all(seq![self.letter], below.listing_from(0)),
            None => seq![],
        }
    }

    /// The words through a letter are sorted, each starts with the letter,
    /// and they are the words that pass through it.
    pub proof fn lemma_listing(self)
        requires
            match self.level_below {
                Some(below) => below.wf(),
                None => true,
            },
        ensures
            strictly_sorted(self.listing()),
            forall|k: int|
                0 <= k < self.listing().len() ==> (#[trigger] self.listing()[k]).len() > 0
                    && self.listing()[k][0] == self.letter,
            forall|w: Seq<char>| #[trigger]
                self.listing().contains(w) <==> (w.len() > 0 && w[0] == self.letter
                    && self.word_after(w.drop_first())),
        decreases self, 0int,
    {
        let c = self.letter;
        let own: Seq<Seq<char>> = if self.is_end_of_word {
            seq![seq![c]]
        } else {
            seq![]
        };
        let longer: Seq<Seq<char>> = match self.level_below {
            Some(below) => prepend_all(seq![c], below.listing_from(0)),
            None => seq![],
        };
        assert(self.listing() == own + longer);
        if let Some(below) = self.level_below {
            below.lemma_listing_from(0);
            below.lemma_listing();
            let inner = below.listing_from(0);
            lemma_prepend_all_sorted(seq![c], inner);
            assert forall|i: int, j: int| 0 <= i < own.len() && 0 <= j < longer.len() implies lex_lt(
                #[trigger] own[i],
                #[trigger] longer[j],
            ) by {
                lemma_lex_prepend_all(seq![c], seq![], inner[j]);
                assert(seq![c] + seq![] =~= seq![c]);
            }
            lemma_concat_sorted(own, longer);
            assert forall|w: Seq<char>| #[trigger]
                self.listing().contains(w) <==> (w.len() > 0 && w[0] == c && self.word_after(
                    w.drop_first(),
                )) by {
                if self.listing().contains(w) {
                    let k = choose|k: int| 0 <= k < self.listing().len() && self.listing()[k] == w;
                    if k < own.len() {
                        assert(own[k] == w);
                    } else {
                        assert(longer[k - own.len()] == w);
                    }
                }
                if own.contains(w) {
                    assert(w.drop_first() =~= Seq::<char>::empty());
                }
                if longer.contains(w) {
                    let k = choose|k: int| 0 <= k < longer.len() && longer[k] == w;
                    assert(w.drop_first() =~= inner[k]);
                    assert(inner.contains(inner[k]));
                }
                if w.len() > 0 && w[0] == c && self.word_after(w.drop_first()) {
                    if w.len() == 1 {
                        assert(w =~= seq![c]);
                        assert(self.listing()[0] == w);
                    } else {
                        assert(inner.contains(w.drop_first()));
                        let k = choose|k: int| 0 <= k < inner.len() && inner[k] == w.drop_first();
                        assert(w =~= seq![c] + w.drop_first());
                        assert(longer[k] == w);
                        assert(self.listing()[own.len() + k] == w);
                    }
                }
            }
        } else {
            assert(self.listing() =~= own);
            assert forall|w: Seq<char>| #[trigger]
                self.listing().contains(w) <==> (w.len() > 0 && w[0] == c && self.word_after(
                    w.drop_first(),
                )) by {
                if own.contains(w) {
                    assert(w.drop_first() =~= Seq::<char>::empty());
                }
                if w.len() > 0 && w[0] == c && self.word_after(w.drop_first()) {
                    assert(w =~= seq![c]);
                    assert(own[0] == w);
                }
            }
        }
    }
}

impl Level {
    /// The words through the letters from index `i` on, letter by letter.
    pub open spec fn listing_from(self, i: int) -> Seq<Seq<char>>
        decreases self, self.letter_vector@.len() - i,
    {
        if 0 <= i < self.letter_vector@.len() {
            self.letter_vector@[i].listing() + self.listing_from(i + 1)
        } else {
            seq![]
        }
    }

    /// The words through the letters from index `i` on are sorted, each
    /// starts with one of those letters, and they are the words through them.
    pub proof fn lemma_listing_from(self, i: int)
        requires
            self.wf(),
            0 <= i <= self.letter_vector@.len(),
        ensures
            strictly_sorted(self.listing_from(i)),
            forall|k: int|
                0 <= k < self.listing_from(i).len() ==> (#[trigger] self.listing_from(i)[k]).len() > 0
                    && exists|j: int|
                    i <= j < self.letter_vector@.len() && #[trigger] self.letter_vector@[j].letter
                        == self.listing_from(i)[k][0],
            forall|w: Seq<char>| #[trigger]
                self.listing_from(i).contains(w) <==> (w.len() > 0 && exists|j: int|
                    i <= j < self.letter_vector@.len() && #[trigger] self.letter_vector@[j].letter
                        == w[0] && self.letter_vector@[j].word_after(w.drop_first())),
        decreases self, self.letter_vector@.len() - i,
    {
        let lv = self.letter_vector@;
        if i < lv.len() {
            let head = lv[i].listing();
            let tail = self.listing_from(i + 1);
            assert(match lv[i].level_below {
                Some(below) => below.wf(),
                None => true,
            });
            lv[i].lemma_listing();
            self.lemma_listing_from(i + 1);
            assert forall|a: int, b: int| 0 <= a < head.len() && 0 <= b < tail.len() implies lex_lt(
                #[trigger] head[a],
                #[trigger] tail[b],
            ) by {
                let j = choose|j: int| i + 1 <= j < lv.len() && #[trigger] lv[j].letter == tail[b][0];
                assert(lv[i].letter < lv[j].letter);
            }
            lemma_concat_sorted(head, tail);
            let s = self.listing_from(i);
            assert(s == head + tail);
            assert forall|k: int| 0 <= k < s.len() implies (#[trigger] s[k]).len() > 0 && exists|j: int|
                i <= j < lv.len() && #[trigger] lv[j].letter == s[k][0] by {
                if k < head.len() {
                    assert(s[k] == head[k]);
                    assert(lv[i].letter == s[k][0]);
                } else {
                    assert(s[k] == tail[k - head.len()]);
                }
            }
            assert forall|w: Seq<char>| #[trigger]
                s.contains(w) <==> (w.len() > 0 && exists|j: int|
                    i <= j < lv.len() && #[trigger] lv[j].letter == w[0] && lv[j].word_after(
                        w.drop_first(),
                    )) by {
                if head.contains(w) {
                    let k = choose|k: int| 0 <= k < head.len() && head[k] == w;
                    assert(s[k] == w);
                }
                if tail.contains(w) {
                    let k = choose|k: int| 0 <= k < tail.len() && tail[k] == w;
                    assert(s[k + head.len()] == w);
                }
                if s.contains(w) {
                    let k = choose|k: int| 0 <= k < s.len() && s[k] == w;
                    if k < head.len() {
                        assert(head[k] == w);
                        assert(head.contains(w));
                    } else {
                        assert(tail[k - head.len()] == w);
                        assert(tail.contains(w));
                    }
                }
                if w.len() > 0 && exists|j: int|
                    i <= j < lv.len() && #[trigger] lv[j].letter == w[0] && lv[j].word_after(
                        w.drop_first(),
                    ) {
                    let j = choose|j: int|
                        i <= j < lv.len() && #[trigger] lv[j].letter == w[0] && lv[j].word_after(
                            w.drop_first(),
                        );
                    if j == i {
                        assert(head.contains(w));
                    } else {
                        assert(tail.contains(w));
                    }
                }
            }
        } else {
            assert(self.listing_from(i) =~= Seq::<Seq<char>>::empty());
        }
    }

    /// The listing of a level is the sorted listing of its words.
    pub proof fn lemma_listing(self)
        requires
            self.wf(),
        ensures
            strictly_sorted(self.listing()),
            forall|w: Seq<char>| #[trigger] self.listing().contains(w) <==> self.has_word(w),
        decreases self, self.letter_vector@.len() + 1,
    {
        self.lemma_listing_from(0);
        assert forall|w: Seq<char>| #[trigger] self.listing().contains(w) <==> self.has_word(w) by {
            if self.listing().contains(w) {
                let j = choose|j: int|
                    0 <= j < self.letter_vector@.len() && #[trigger] self.letter_vector@[j].letter == w[0]
                        && self.letter_vector@[j].word_after(w.drop_first());
                self.lemma_letter_found(j);
            }
            if self.has_word(w) {
                let l = self.letter_for(w[0]).unwrap();
                let j = choose|j: int|
                    0 <= j < self.letter_vector@.len() && self.letter_vector@[j].letter == w[0];
                assert(self.letter_vector@[j] == l);
            }
        }
    }

    /// Appends to `out` each word below this level, with `prefix` in front,
    /// in the order of a depth-first walk.
    pub(crate) fn collect_words(&self, prefix: &mut Vec<char>, out: &mut Vec<String>)
        requires
            self.wf(),
        ensures
            final(prefix)@ == old(prefix)@,
            strings_view(final(out)@) == strings_view(old(out)@) + prepend_all(old(prefix)@, self.listing()),
        decreases self,
    {
        let n: usize = self.letter_vector.len();
        let mut i: usize = 0;
        assert(strings_view(out@) + prepend_all(prefix@, self.listing_from(0)) == strings_view(old(out)@)
            + prepend_all(prefix@, self.listing()));
        while i < n
            invariant
                self.wf(),
                n == self.letter_vector@.len(),
                i <= n,
                prefix@ == old(prefix)@,
                strings_view(out@) + prepend_all(prefix@, self.listing_from(i as int)) == strings_view(
                    old(out)@,
                ) + prepend_all(prefix@, self.listing()),
            decreases n - i,
        {
            let l = &self.letter_vector[i];
            let ghost p = prefix@;
            let ghost c = l.letter;
            let ghost out0 = strings_view(out@);
            let ghost own = l.own_listing();
            let ghost longer = l.longer_listing();
            assert(self.listing_from(i as int) == l.listing() + self.listing_from(i + 1));
            assert(l.listing() == own + longer);
            prefix.push(l.letter);
            if l.is_end_of_word {
                let chars = prefix.clone();
                assert(chars@ =~= p + seq![c]);
                let word = string_from_chars(chars);
                out.push(word);
                assert(prepend_all(p, own) =~= seq![p + seq![c]]);
                assert(strings_view(out@) =~= out0 + prepend_all(p, own));
            } else {
                assert(strings_view(out@) =~= out0 + prepend_all(p, own));
            }
            let ghost out1 = strings_view(out@);
            match &l.level_below {
                Some(below) => {
                    assert(match l.level_below {
                        Some(b) => b.wf(),
                        None => true,
                    });
                    below.collect_words(prefix, out);
                    proof {
                        lemma_prepend_all_split(p, seq![c], below.listing_from(0), seq![]);
                    }
                },
                None => {
                    assert(prepend_all(p, longer) =~= Seq::<Seq<char>>::empty());
                    assert(strings_view(out@) =~= out1 + prepend_all(p, longer));
                },
            }
            prefix.pop();
            proof {
                assert(prefix@ =~= p);
                lemma_prepend_all_split(p, seq![], own, longer);
                lemma_prepend_all_split(p, seq![], l.listing(), self.listing_from(i + 1));
                assert(strings_view(out@) + prepend_all(p, self.listing_from(i + 1)) =~= out0
                    + prepend_all(p, self.listing_from(i as int)));
            }
            i = i + 1;
        }
        assert(self.listing_from(n as int) =~= Seq::<Seq<char>>::empty());
        assert(strings_view(out@) =~= strings_view(out@) + prepend_all(prefix@, self.listing_from(n as int)));
    }

    /// A word that extends the path `p` by `v` is a word exactly when the
    /// letter at the end of `p` has `v` after it.
    pub proof fn lemma_word_through(self, p: Seq<char>, v: Seq<char>)
        requires
            0 < p.len(),
        ensures
            self.has_word(p + v) == (self.letter_at(p) matches Some(l) && l.word_after(v)),
        decreases p.len(),
    {
        let w = p + v;
        assert(w[0] == p[0]);
        if p.len() == 1 {
            assert(w.drop_first() =~= v);
        } else {
            assert(w.drop_first() =~= p.drop_first() + v);
            if let Some(l) = self.letter_for(p[0]) {
                if let Some(below) = l.level_below {
                    below.lemma_word_through(p.drop_first(), v);
                }
            }
        }
    }

    /// The words through the letter `l` at the end of the path `p`, spelled
    /// in full: `p` if it is a word, then the longer words below `l`. They
    /// are the sorted listing of the words of this level that start with `p`.
    pub proof fn lemma_prefix_listing(self, p: Seq<char>, l: Letter)
        requires
            self.wf(),
            0 < p.len(),
            self.letter_at(p) == Some(l),
        ensures
            is_sorted_listing(
                (if l.is_end_of_word {
                    seq![p]
                } else {
                    seq![]
                }) + match l.level_below {
                    Some(below) => prepend_all(p, below.listing()),
                    None => seq![],
                },
                Set::new(|w: Seq<char>| self.has_word(w) && p.is_prefix_of(w)),
            ),
    {
        let own: Seq<Seq<char>> = if l.is_end_of_word {
            seq![p]
        } else {
            seq![]
        };
        let longer: Seq<Seq<char>> = match l.level_below {
            Some(below) => prepend_all(p, below.listing()),
            None => seq![],
        };
        let all = own + longer;
        let target = Set::new(|w: Seq<char>| self.has_word(w) && p.is_prefix_of(w));
        self.lemma_letter_at_wf(p);
        assert(p + Seq::<char>::empty() =~= p);
        if let Some(below) = l.level_below {
            below.lemma_listing();
            below.lemma_listing_from(0);
            lemma_prepend_all_sorted(p, below.listing());
            assert forall|i: int, j: int| 0 <= i < own.len() && 0 <= j < longer.len() implies lex_lt(
                #[trigger] own[i],
                #[trigger] longer[j],
            ) by {
                lemma_lex_prepend_all(p, Seq::empty(), below.listing()[j]);
            }
        }
        lemma_concat_sorted(own, longer);
        assert forall|w: Seq<char>| #[trigger] all.contains(w) <==> target.contains(w) by {
            if all.contains(w) {
                let k = choose|k: int| 0 <= k < all.len() && all[k] == w;
                if k < own.len() {
                    assert(own[k] == w);
                    self.lemma_word_through(p, Seq::empty());
                    assert(p.is_prefix_of(p));
                } else {
                    let below = l.level_below.unwrap();
                    let v = below.listing()[k - own.len()];
                    assert(below.listing().contains(v));
                    assert(w == p + v);
                    self.lemma_word_through(p, v);
                    assert(p =~= w.subrange(0, p.len() as int));
                }
            }
            if target.contains(w) {
                let v = w.subrange(p.len() as int, w.len() as int);
                assert(w =~= p + v);
                self.lemma_word_through(p, v);
                if v.len() == 0 {
                    assert(w =~= p);
                    assert(all[0] == w);
                } else {
                    let below = l.level_below.unwrap();
                    assert(below.listing().contains(v));
                    let k = choose|k: int| 0 <= k < below.listing().len() && below.listing()[k] == v;
                    assert(all[own.len() + k] == w);
                }
            }
        }
    }

    /// All the words below this level, in the order of a depth-first walk.
    pub open spec fn listing(self) -> Seq<Seq<char>> {
        self.listing_from(0)
    }
}

} // verus!
