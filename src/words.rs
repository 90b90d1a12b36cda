use vstd::prelude::*;
use vstd::set_lib::{lemma_int_range, lemma_len_subset, lemma_len_union, lemma_map_size, lemma_set_disjoint_lens, set_int_range};

verus! {

/// The non-empty prefixes of the words of `words`: the letters of a tree
/// that holds those words, each letter standing for the path that ends at it.
pub open spec fn prefixes(words: Set<Seq<char>>) -> Set<Seq<char>> {
    Set::new(
        |p: Seq<char>| 0 < p.len() && exists|w: Seq<char>| #[trigger] words.contains(w) && p.is_prefix_of(w),
    )
}

/// The words of `words` that start with `p`.
pub open spec fn words_with_prefix(words: Set<Seq<char>>, p: Seq<char>) -> Set<Seq<char>> {
    words.filter(|w: Seq<char>| p.is_prefix_of(w))
}

/// The prefixes of `w` that are longer than `m` characters.
spec fn prefixes_longer(w: Seq<char>, m: int) -> Set<Seq<char>> {
    set_int_range(m + 1, w.len() as int + 1).map(|k: int| w.subrange(0, k))
}

proof fn lemma_prefixes_longer(w: Seq<char>, m: int)
    requires
        0 <= m <= w.len(),
    ensures
        prefixes_longer(w, m).finite(),
        prefixes_longer(w, m).len() == w.len() - m,
        forall|p: Seq<char>| #[trigger]
            prefixes_longer(w, m).contains(p) <==> (m < p.len() && p.is_prefix_of(w)),
{
    let r = set_int_range(m + 1, w.len() as int + 1);
    let f = |k: int| w.subrange(0, k);
    lemma_int_range(m + 1, w.len() as int + 1);
    assert forall|a: int, b: int| r.contains(a) && r.contains(b) && #[trigger] f(a) == #[trigger] f(b) implies a == b by {
        assert(f(a).len() == a && f(b).len() == b);
    }
    lemma_map_size(r, r.map(f), f);
    assert forall|p: Seq<char>| #[trigger]
        prefixes_longer(w, m).contains(p) <==> (m < p.len() && p.is_prefix_of(w)) by {
        if m < p.len() && p.is_prefix_of(w) {
            assert(r.contains(p.len() as int));
            assert(f(p.len() as int) == p);
        }
    }
}

/// The empty set of words has no prefixes.
pub proof fn lemma_prefixes_empty()
    ensures
        prefixes(Set::empty()) == Set::<Seq<char>>::empty(),
{
    assert(prefixes(Set::empty()) =~= Set::<Seq<char>>::empty());
}

/// A finite set of words has finitely many prefixes.
pub proof fn lemma_prefixes_finite(words: Set<Seq<char>>)
    requires
        words.finite(),
    ensures
        prefixes(words).finite(),
    decreases words.len(),
{
    if words.len() == 0 {
        assert(words =~= Set::empty());
        lemma_prefixes_empty();
    } else {
        let w = words.choose();
        let rest = words.remove(w);
        lemma_prefixes_finite(rest);
        lemma_prefixes_longer(w, 0);
        assert(prefixes(words) =~= prefixes(rest) + prefixes_longer(w, 0)) by {
            assert forall|p: Seq<char>| #[trigger] prefixes(words).contains(p) implies (prefixes(
                rest,
            ) + prefixes_longer(w, 0)).contains(p) by {
                let v = choose|v: Seq<char>| #[trigger] words.contains(v) && p.is_prefix_of(v);
                if v != w {
                    assert(rest.contains(v));
                }
            }
        }
    }
}

/// Adding a word `w` whose first `m` prefixes, and no longer ones, are already
/// prefixes adds the `w.len() - m` longer ones.
pub proof fn lemma_prefixes_insert(words: Set<Seq<char>>, w: Seq<char>, m: int)
    requires
        words.finite(),
        0 <= m <= w.len(),
        forall|k: int| 1 <= k <= w.len() ==> (prefixes(words).contains(#[trigger] w.subrange(0, k)) <==> k <= m),
    ensures
        prefixes(words.insert(w)).finite(),
        prefixes(words.insert(w)).len() == prefixes(words).len() + (w.len() - m),
        forall|p: Seq<char>| #[trigger]
            prefixes(words.insert(w)).contains(p) <==> (prefixes(words).contains(p) || (0 < p.len()
                && p.is_prefix_of(w))),
{
    lemma_prefixes_finite(words);
    lemma_prefixes_longer(w, m);
    let old_p = prefixes(words);
    let new_p = prefixes_longer(w, m);
    assert forall|p: Seq<char>| #[trigger]
        prefixes(words.insert(w)).contains(p) <==> (old_p.contains(p) || (0 < p.len() && p.is_prefix_of(w))) by {
        if prefixes(words.insert(w)).contains(p) {
            let v = choose|v: Seq<char>| #[trigger] words.insert(w).contains(v) && p.is_prefix_of(v);
            if v != w {
                assert(words.contains(v));
            }
        }
        if old_p.contains(p) {
            let v = choose|v: Seq<char>| #[trigger] words.contains(v) && p.is_prefix_of(v);
            assert(words.insert(w).contains(v));
        }
        if 0 < p.len() && p.is_prefix_of(w) {
            assert(words.insert(w).contains(w));
        }
    }
    assert(prefixes(words.insert(w)) =~= old_p + new_p) by {
        assert forall|p: Seq<char>| #[trigger] prefixes(words.insert(w)).contains(p) implies (old_p
            + new_p).contains(p) by {
            if !old_p.contains(p) && p.len() <= m {
                assert(p =~= w.subrange(0, p.len() as int));
            }
        }
    }
    assert(old_p.disjoint(new_p)) by {
        assert forall|p: Seq<char>| new_p.contains(p) implies !old_p.contains(p) by {
            assert(p =~= w.subrange(0, p.len() as int));
        }
    }
    lemma_set_disjoint_lens(old_p, new_p);
}

/// Adding a word adds at most as many prefixes as it has characters.
pub proof fn lemma_prefixes_insert_bound(words: Set<Seq<char>>, w: Seq<char>)
    requires
        words.finite(),
    ensures
        prefixes(words.insert(w)).finite(),
        prefixes(words.insert(w)).len() <= prefixes(words).len() + w.len(),
{
    lemma_prefixes_finite(words);
    lemma_prefixes_finite(words.insert(w));
    lemma_prefixes_longer(w, 0);
    let both = prefixes(words) + prefixes_longer(w, 0);
    assert forall|p: Seq<char>| #[trigger] prefixes(words.insert(w)).contains(p) implies both.contains(p) by {
        let v = choose|v: Seq<char>| #[trigger] words.insert(w).contains(v) && p.is_prefix_of(v);
        if v != w {
            assert(words.contains(v));
        }
    }
    lemma_len_subset(prefixes(words.insert(w)), both);
    lemma_len_union(prefixes(words), prefixes_longer(w, 0));
}

/// A set of non-empty words has at least as many prefixes as words.
pub proof fn lemma_words_within_prefixes(words: Set<Seq<char>>)
    requires
        words.finite(),
        !words.contains(Seq::empty()),
    ensures
        words.len() <= prefixes(words).len(),
{
    lemma_prefixes_finite(words);
    assert forall|w: Seq<char>| words.contains(w) implies #[trigger] prefixes(words).contains(w) by {
        if w.len() == 0 {
            assert(w =~= Seq::<char>::empty());
        }
        assert(w.is_prefix_of(w));
    }
    lemma_len_subset(words, prefixes(words));
}

} // verus!
