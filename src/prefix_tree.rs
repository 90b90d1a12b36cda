use crate::level::Level;
use crate::lex::{is_sorted_listing, prepend_all};
use crate::listing::strings_view;
use crate::text::{chars_of, lower_of, lowercase, string_from_chars, upper_of, uppercase};
use crate::words::{
    lemma_prefixes_empty, lemma_prefixes_insert, lemma_prefixes_insert_bound, lemma_words_within_prefixes,
    prefixes, words_with_prefix,
};
use vstd::prelude::*;

verus! {

/// How a tree treats the case of the words it is given. The policy is fixed
/// when the tree is made and applied to every word inserted or looked up.
#[derive(Clone, Copy, Debug, PartialEq, Eq, Structural)]
pub enum Case {
    /// Words are stored as given.
    Sensitive,
    /// Words are stored in upper case.
    FoldUpper,
    /// Words are stored in lower case.
    FoldLower,
}

/// The word that a tree with policy `case` stores for `s`.
pub open spec fn folded(case: Case, s: Seq<char>) -> Seq<char> {
    match case {
        Case::Sensitive => s,
        Case::FoldUpper => upper_of(s),
        Case::FoldLower => lower_of(s),
    }
}

/// The error of a listing by prefix when no stored word starts with the prefix.
#[derive(Clone, Copy, Debug, PartialEq, Eq, Structural)]
pub struct PrefixNotFound;

/// A set of words in a prefix tree: one letter for each distinct non-empty
/// prefix of the stored words, siblings kept in order of character.
pub struct PrefixTree {
    head: Level,
    case: Case,
    word_count: u64,
    letter_count: u64,
    words: Ghost<Set<Seq<char>>>,
}

impl View for PrefixTree {
    type V = Set<Seq<char>>;

    /// The stored words, after folding.
    closed spec fn view(&self) -> Set<Seq<char>> {
        self.words@
    }
}

impl PrefixTree {
    /// The case policy the tree was made with.
    pub closed spec fn case_mode(&self) -> Case {
        self.case
    }

    /// The letters hold exactly the stored words and their prefixes, and the
    /// counters count them.
    pub closed spec fn wf(&self) -> bool {
        &&& self.head.wf()
        &&& self.words@.finite()
        &&& prefixes(self.words@).finite()
        &&& forall|w: Seq<char>| #[trigger] self.words@.contains(w) <==> self.head.has_word(w)
        &&& forall|p: Seq<char>| #[trigger] prefixes(self.words@).contains(p) <==> self.head.has_path(p)
        &&& self.word_count == self.words@.len()
        &&& self.letter_count == prefixes(self.words@).len()
    }

    /// A well-formed tree stores no empty word.
    pub proof fn lemma_no_empty_word(&self)
        requires
            self.wf(),
        ensures
            !self@.contains(Seq::empty()),
    {
        assert(!self.head.has_word(Seq::empty()));
    }

    /// An empty tree with the given case policy.
    pub fn new(case: Case) -> (r: PrefixTree)
        ensures
            r.wf(),
            r@ == Set::<Seq<char>>::empty(),
            r.case_mode() == case,
    {
        let r = PrefixTree {
            head: Level::new(),
            case: case,
            word_count: 0,
            letter_count: 0,
            words: Ghost(Set::empty()),
        };
        proof {
            lemma_prefixes_empty();
            assert forall|p: Seq<char>| #[trigger] prefixes(r.words@).contains(p) <==> r.head.has_path(p) by {
                if p.len() > 0 {
                    assert(!r.head.has_letter(p[0]));
                }
            }
            assert forall|w: Seq<char>| #[trigger] r.words@.contains(w) <==> r.head.has_word(w) by {
                if w.len() > 0 {
                    assert(!r.head.has_letter(w[0]));
                }
            }
        }
        r
    }

    /// The characters of `word` after folding under the tree's policy.
    fn fold(&self, word: &str) -> (r: Vec<char>)
        ensures
            r@ == folded(self.case, word@),
    {
        match self.case {
            Case::Sensitive => chars_of(word),
            Case::FoldUpper => {
                let s = uppercase(word);
                chars_of(s.as_str())
            },
            Case::FoldLower => {
                let s = lowercase(word);
                chars_of(s.as_str())
            },
        }
    }

    /// Stores the word spelled by `w`, which is not empty and whose letters
    /// keep the letter count within `u64`.
    fn insert_chars(&mut self, w: &Vec<char>)
        requires
            old(self).wf(),
            0 < w@.len(),
            prefixes(old(self)@).len() + w@.len() <= u64::MAX,
        ensures
            final(self).wf(),
            final(self).case == old(self).case,
            final(self)@ == old(self)@.insert(w@),
    {
        let ghost words = self.words@;
        let ghost m = self.head.matched(w@);
        proof {
            assert(w@.subrange(0, w@.len() as int) =~= w@);
            self.head.lemma_matched(w@, 0);
            assert forall|k: int| 1 <= k <= w@.len() implies (prefixes(words).contains(
                #[trigger] w@.subrange(0, k),
            ) <==> k <= m) by {
                self.head.lemma_matched(w@, k);
            }
            lemma_prefixes_insert(words, w@, m as int);
            lemma_words_within_prefixes(words);
            assert(!words.contains(Seq::empty())) by {
                assert(!self.head.has_word(Seq::empty()));
            }
        }
        let (created, fresh) = self.head.insert_suffix(w, 0);
        self.letter_count = self.letter_count + created as u64;
        if fresh {
            self.word_count = self.word_count + 1;
        }
        self.words = Ghost(words.insert(w@));
        proof {
            if !fresh {
                assert(words.insert(w@) =~= words);
            }
        }
    }

    /// Stores `word` as it is, without folding. An empty word is not stored.
    pub fn insert_folded_word(&mut self, word: &str)
        requires
            old(self).wf(),
            prefixes(old(self)@).len() + word@.len() <= u64::MAX,
        ensures
            final(self).wf(),
            final(self).case_mode() == old(self).case_mode(),
            final(self)@ == if word@.len() == 0 {
                old(self)@
            } else {
                old(self)@.insert(word@)
            },
    {
        let w = chars_of(word);
        if w.len() > 0 {
            self.insert_chars(&w);
        }
    }

    /// Stores `word` after folding it under the tree's policy. An empty word
    /// is not stored, nor one whose letters could take the letter count past
    /// `u64::MAX`.
    pub fn insert_word(&mut self, word: &str)
        requires
            old(self).wf(),
        ensures
            final(self).wf(),
            final(self).case_mode() == old(self).case_mode(),
            final(self)@ == inserted(old(self)@, folded(old(self).case_mode(), word@)),
    {
        let w = self.fold(word);
        if w.len() > 0 && w.len() as u64 <= u64::MAX - self.letter_count {
            self.insert_chars(&w);
        }
    }

    /// Whether the word spelled by `w` is stored.
    fn contains_chars(&self, w: &Vec<char>) -> (r: bool)
        requires
            self.wf(),
        ensures
            r == self@.contains(w@),
    {
        if w.len() == 0 {
            proof {
                assert(!self.head.has_word(w@));
            }
            return false;
        }
        proof {
            assert(w@.subrange(0, w@.len() as int) =~= w@);
            self.head.lemma_path_end(w@);
        }
        match self.head.walk(w, 0) {
            Some(l) => l.is_end_of_word,
            None => false,
        }
    }

    /// Whether `word`, taken as already folded, is stored.
    pub fn contains_folded_word(&self, word: &str) -> (r: bool)
        requires
            self.wf(),
        ensures
            r == self@.contains(word@),
    {
        let w = chars_of(word);
        self.contains_chars(&w)
    }

    /// Whether `word`, folded under the tree's policy, is stored. The empty
    /// word never is.
    pub fn contains_word(&self, word: &str) -> (r: bool)
        requires
            self.wf(),
        ensures
            r == self@.contains(folded(self.case_mode(), word@)),
            folded(self.case_mode(), word@).len() == 0 ==> !r,
    {
        let w = self.fold(word);
        proof {
            self.lemma_no_empty_word();
            if w@.len() == 0 {
                assert(w@ =~= Seq::<char>::empty());
            }
        }
        self.contains_chars(&w)
    }

    /// Every stored word, in lexicographic order of character values, each
    /// once. The caller presents them.
    pub fn print_all_words(&self) -> (r: Vec<String>)
        requires
            self.wf(),
        ensures
            is_sorted_listing(strings_view(r@), self@),
    {
        let mut out: Vec<String> = Vec::new();
        let mut prefix: Vec<char> = Vec::new();
        self.head.collect_words(&mut prefix, &mut out);
        proof {
            let l = self.head.listing();
            assert(prepend_all(Seq::empty(), l) =~= l) by {
                assert forall|k: int| 0 <= k < l.len() implies #[trigger] prepend_all(Seq::empty(), l)[k]
                    == l[k] by {
                    assert(Seq::<char>::empty() + l[k] =~= l[k]);
                }
            }
            assert(strings_view(out@) =~= l);
            self.head.lemma_listing();
        }
        out
    }

    /// The stored words that start with `p`, in order, or `PrefixNotFound`
    /// when no stored word does and `p` is not empty.
    fn words_with_chars_prefix(&self, p: &Vec<char>) -> (r: Result<Vec<String>, PrefixNotFound>)
        requires
            self.wf(),
        ensures
            r is Ok <==> (p@.len() == 0 || prefixes(self@).contains(p@)),
            r matches Ok(v) ==> is_sorted_listing(strings_view(v@), words_with_prefix(self@, p@)),
    {
        if p.len() == 0 {
            let all = self.print_all_words();
            proof {
                assert(words_with_prefix(self@, p@) =~= self@) by {
                    assert forall|w: Seq<char>| self@.contains(w) implies p@.is_prefix_of(w) by {
                        assert(p@ =~= w.subrange(0, 0));
                    }
                }
            }
            return Ok(all);
        }
        proof {
            assert(p@.subrange(0, p@.len() as int) =~= p@);
            self.head.lemma_path_end(p@);
        }
        match self.head.walk(p, 0) {
            None => Err(PrefixNotFound),
            Some(l) => {
                let mut out: Vec<String> = Vec::new();
                if l.is_end_of_word {
                    let chars = p.clone();
                    assert(chars@ =~= p@);
                    out.push(string_from_chars(chars));
                }
                let ghost own = strings_view(out@);
                proof {
                    if l.is_end_of_word {
                        assert(own =~= seq![p@]);
                    } else {
                        assert(own =~= Seq::<Seq<char>>::empty());
                    }
                    self.head.lemma_letter_at_wf(p@);
                    self.head.lemma_prefix_listing(p@, *l);
                }
                match &l.level_below {
                    Some(below) => {
                        let mut prefix = p.clone();
                        assert(prefix@ =~= p@);
                        below.collect_words(&mut prefix, &mut out);
                    },
                    None => {
                        assert(strings_view(out@) =~= own + Seq::<Seq<char>>::empty());
                    },
                }
                proof {
                    assert(words_with_prefix(self@, p@) =~= Set::new(
                        |w: Seq<char>| self.head.has_word(w) && p@.is_prefix_of(w),
                    ));
                }
                Ok(out)
            },
        }
    }

    /// The stored words that start with `prefix`, taken as already folded, in
    /// order; `PrefixNotFound` when no stored word does and `prefix` is not
    /// empty.
    pub fn print_all_words_with_folded_prefix(&self, prefix: &str) -> (r: Result<Vec<String>, PrefixNotFound>)
        requires
            self.wf(),
        ensures
            r is Ok <==> (prefix@.len() == 0 || prefixes(self@).contains(prefix@)),
            r matches Ok(v) ==> is_sorted_listing(strings_view(v@), words_with_prefix(self@, prefix@)),
    {
        let p = chars_of(prefix);
        self.words_with_chars_prefix(&p)
    }

    /// The stored words that start with `prefix`, folded under the tree's
    /// policy, in order; `PrefixNotFound` when no stored word does and the
    /// folded prefix is not empty.
    pub fn print_all_words_with_prefix(&self, prefix: &str) -> (r: Result<Vec<String>, PrefixNotFound>)
        requires
            self.wf(),
        ensures
            r is Ok <==> (folded(self.case_mode(), prefix@).len() == 0 || prefixes(self@).contains(
                folded(self.case_mode(), prefix@),
            )),
            r matches Ok(v) ==> is_sorted_listing(
                strings_view(v@),
                words_with_prefix(self@, folded(self.case_mode(), prefix@)),
            ),
    {
        let p = self.fold(prefix);
        self.words_with_chars_prefix(&p)
    }

    /// The number of stored words.
    pub fn get_word_count(&self) -> (r: u64)
        requires
            self.wf(),
        ensures
            r == self@.len(),
    {
        self.word_count
    }

    /// The number of letters in the tree: the number of distinct non-empty
    /// prefixes of the stored words.
    pub fn get_letter_count(&self) -> (r: u64)
        requires
            self.wf(),
        ensures
            r == prefixes(self@).len(),
    {
        self.letter_count
    }
}

/// The stored words after inserting the folded word `f` into `words`: `f` is
/// added unless it is empty or its letters could take the letter count past
/// `u64::MAX`.
pub open spec fn inserted(words: Set<Seq<char>>, f: Seq<char>) -> Set<Seq<char>> {
    if f.len() == 0 || prefixes(words).len() + f.len() > u64::MAX {
        words
    } else {
        words.insert(f)
    }
}

/// The stored words after inserting the folded word `f` into `words` `n`
/// times over.
pub open spec fn inserted_times(words: Set<Seq<char>>, f: Seq<char>, n: nat) -> Set<Seq<char>>
    decreases n,
{
    if n == 0 {
        words
    } else {
        inserted(inserted_times(words, f, (n - 1) as nat), f)
    }
}

/// A word is found once inserted, and inserting it again any number of times
/// changes nothing: the inserted word folds to `f`, which is not empty, and
/// its letters keep the letter count within `u64`.
pub proof fn lemma_insert_then_found(words: Set<Seq<char>>, f: Seq<char>, n: nat)
    requires
        0 < f.len(),
        prefixes(words).len() + f.len() <= u64::MAX,
    ensures
        inserted(words, f).contains(f),
        inserted_times(inserted(words, f), f, n) == inserted(words, f),
    decreases n,
{
    if n > 0 {
        lemma_insert_then_found(words, f, (n - 1) as nat);
        let once = inserted(words, f);
        if f.len() > 0 && prefixes(once).len() + f.len() <= u64::MAX {
            assert(once.insert(f) =~= once);
        }
    }
}

/// The stored words do not depend on the order of two insertions, as long as
/// the letters of both words keep the letter count within `u64`.
pub proof fn lemma_insert_order(words: Set<Seq<char>>, a: Seq<char>, b: Seq<char>)
    requires
        words.finite(),
        prefixes(words).len() + a.len() + b.len() <= u64::MAX,
    ensures
        inserted(inserted(words, a), b) == inserted(inserted(words, b), a),
{
    lemma_prefixes_insert_bound(words, a);
    lemma_prefixes_insert_bound(words, b);
    if a.len() > 0 && b.len() > 0 {
        assert(words.insert(a).insert(b) =~= words.insert(b).insert(a));
    }
}

/// The stored words of a new tree with policy `case` after inserting each
/// word of `ws` in turn.
pub open spec fn inserted_all(case: Case, ws: Seq<Seq<char>>) -> Set<Seq<char>>
    decreases ws.len(),
{
    if ws.len() == 0 {
        Set::empty()
    } else {
        inserted(inserted_all(case, ws.drop_last()), folded(case, ws.last()))
    }
}

/// The total length of the words of `ws` after folding under `case`.
pub open spec fn folded_length(case: Case, ws: Seq<Seq<char>>) -> nat
    decreases ws.len(),
{
    if ws.len() == 0 {
        0
    } else {
        folded_length(case, ws.drop_last()) + folded(case, ws.last()).len()
    }
}

/// The distinct non-empty words of `ws` after folding under `case`.
pub open spec fn distinct_folded(case: Case, ws: Seq<Seq<char>>) -> Set<Seq<char>> {
    Set::new(|f: Seq<char>| 0 < f.len() && exists|i: int| 0 <= i < ws.len() && folded(case, #[trigger] ws[i]) == f)
}

/// A new tree into which the words of `ws` are inserted stores exactly their
/// distinct non-empty folded forms, duplicates once, so that its word count
/// is the number of those and its letter count the number of their distinct
/// non-empty prefixes; the words' folded letters, all together, keep the
/// letter count within `u64`.
pub proof fn lemma_inserted_all(case: Case, ws: Seq<Seq<char>>)
    requires
        folded_length(case, ws) <= u64::MAX,
    ensures
        inserted_all(case, ws) == distinct_folded(case, ws),
        inserted_all(case, ws).finite(),
        prefixes(inserted_all(case, ws)).len() <= folded_length(case, ws),
    decreases ws.len(),
{
    if ws.len() == 0 {
        lemma_prefixes_empty();
        assert(distinct_folded(case, ws) =~= Set::empty());
    } else {
        let init = ws.drop_last();
        let f = folded(case, ws.last());
        lemma_inserted_all(case, init);
        let before = inserted_all(case, init);
        lemma_prefixes_insert_bound(before, f);
        assert(inserted_all(case, ws) == inserted(before, f));
        assert forall|g: Seq<char>| #[trigger] distinct_folded(case, ws).contains(g) <==> (
        distinct_folded(case, init).contains(g) || (0 < f.len() && g == f)) by {
            if distinct_folded(case, ws).contains(g) {
                let i = choose|i: int| 0 <= i < ws.len() && folded(case, #[trigger] ws[i]) == g;
                if i < ws.len() - 1 {
                    assert(init[i] == ws[i]);
                }
            }
            if distinct_folded(case, init).contains(g) {
                let i = choose|i: int| 0 <= i < init.len() && folded(case, #[trigger] init[i]) == g;
                assert(ws[i] == init[i]);
            }
            if 0 < f.len() && g == f {
                assert(ws[ws.len() - 1] == ws.last());
            }
        }
        if f.len() == 0 {
            assert(inserted_all(case, ws) =~= distinct_folded(case, ws));
        } else {
            assert(inserted_all(case, ws) =~= distinct_folded(case, ws));
        }
    }
}

/// Under the case-sensitive policy, words that differ in any way, case
/// included, are stored as distinct words.
pub proof fn lemma_sensitive_distinct(v: Seq<char>, w: Seq<char>)
    requires
        v != w,
    ensures
        folded(Case::Sensitive, v) != folded(Case::Sensitive, w),
{
}

} // verus!
