use vstd::prelude::*;

verus! {

/// `a` comes strictly before `b` in the lexicographic order of character
/// values: at the first position where they differ the character of `a` is
/// smaller, or `a` is a proper prefix of `b`.
pub open spec fn lex_lt(a: Seq<char>, b: Seq<char>) -> bool
    decreases a.len(),
{
    if b.len() == 0 {
        false
    } else if a.len() == 0 {
        true
    } else if a[0] != b[0] {
        a[0] < b[0]
    } else {
        lex_lt(a.drop_first(), b.drop_first())
    }
}

/// Each word comes strictly before every later one.
pub open spec fn strictly_sorted(s: Seq<Seq<char>>) -> bool {
    forall|i: int, j: int| 0 <= i < j < s.len() ==> lex_lt(#[trigger] s[i], #[trigger] s[j])
}

/// `s` lists exactly the words of `words`, each once, in lexicographic order.
pub open spec fn is_sorted_listing(s: Seq<Seq<char>>, words: Set<Seq<char>>) -> bool {
    &&& strictly_sorted(s)
    &&& forall|w: Seq<char>| s.contains(w) <==> words.contains(w)
}

/// Puts `p` in front of each word of `s`.
pub open spec fn prepend_all(p: Seq<char>, s: Seq<Seq<char>>) -> Seq<Seq<char>> {
    s.map_values(|w: Seq<char>| p + w)
}

/// No word comes before itself.
pub proof fn lemma_lex_irreflexive(a: Seq<char>)
    ensures
        !lex_lt(a, a),
    decreases a.len(),
{
    if a.len() > 0 {
        lemma_lex_irreflexive(a.drop_first());
    }
}

/// The order is transitive.
pub proof fn lemma_lex_transitive(a: Seq<char>, b: Seq<char>, c: Seq<char>)
    requires
        lex_lt(a, b),
        lex_lt(b, c),
    ensures
        lex_lt(a, c),
    decreases a.len(),
{
    if a.len() > 0 && a[0] == b[0] && b[0] == c[0] {
        lemma_lex_transitive(a.drop_first(), b.drop_first(), c.drop_first());
    }
}

/// Of two different words, one comes before the other.
pub proof fn lemma_lex_total(a: Seq<char>, b: Seq<char>)
    requires
        a != b,
    ensures
        lex_lt(a, b) || lex_lt(b, a),
    decreases a.len(),
{
    if a.len() == 0 && b.len() == 0 {
        assert(a =~= b);
    } else if a.len() > 0 && b.len() > 0 && a[0] == b[0] {
        if a.drop_first() == b.drop_first() {
            assert(a =~= seq![a[0]] + a.drop_first());
            assert(b =~= seq![b[0]] + b.drop_first());
        }
        lemma_lex_total(a.drop_first(), b.drop_first());
    }
}

/// Putting the same word in front keeps the order of two words.
pub proof fn lemma_lex_prepend_all(p: Seq<char>, a: Seq<char>, b: Seq<char>)
    ensures
        lex_lt(p + a, p + b) == lex_lt(a, b),
    decreases p.len(),
{
    if p.len() > 0 {
        lemma_lex_prepend_all(p.drop_first(), a, b);
        assert((p + a).drop_first() =~= p.drop_first() + a);
        assert((p + b).drop_first() =~= p.drop_first() + b);
    } else {
        assert(p + a =~= a);
        assert(p + b =~= b);
    }
}

/// Putting the same word in front of each word of a sorted sequence keeps it sorted.
pub proof fn lemma_prepend_all_sorted(p: Seq<char>, s: Seq<Seq<char>>)
    requires
        strictly_sorted(s),
    ensures
        strictly_sorted(prepend_all(p, s)),
{
    let t = prepend_all(p, s);
    assert forall|i: int, j: int| 0 <= i < j < t.len() implies lex_lt(#[trigger] t[i], #[trigger] t[j]) by {
        lemma_lex_prepend_all(p, s[i], s[j]);
    }
}

/// Two sorted sequences, the first all before the second, make a sorted sequence.
pub proof fn lemma_concat_sorted(a: Seq<Seq<char>>, b: Seq<Seq<char>>)
    requires
        strictly_sorted(a),
        strictly_sorted(b),
        forall|i: int, j: int| 0 <= i < a.len() && 0 <= j < b.len() ==> lex_lt(#[trigger] a[i], #[trigger] b[j]),
    ensures
        strictly_sorted(a + b),
{
    let t = a + b;
    assert forall|i: int, j: int| 0 <= i < j < t.len() implies lex_lt(#[trigger] t[i], #[trigger] t[j]) by {
        if j < a.len() {
            assert(t[i] == a[i] && t[j] == a[j]);
        } else if i < a.len() {
            assert(t[i] == a[i] && t[j] == b[j - a.len()]);
        } else {
            assert(t[i] == b[i - a.len()] && t[j] == b[j - a.len()]);
        }
    }
}

/// Two listings of one set of words, each strictly sorted, are the same
/// sequence: the sorted listing of a set is unique.
pub proof fn lemma_sorted_listing_unique(a: Seq<Seq<char>>, b: Seq<Seq<char>>, words: Set<Seq<char>>)
    requires
        is_sorted_listing(a, words),
        is_sorted_listing(b, words),
    ensures
        a == b,
    decreases a.len(),
{
    if a.len() == 0 {
        if b.len() > 0 {
            assert(b.contains(b[0]));
            assert(words.contains(b[0]));
        }
        assert(a =~= b);
    } else {
        assert(a.contains(a[0]));
        assert(b.len() > 0) by {
            assert(words.contains(a[0]));
            assert(b.contains(a[0]));
        }
        let x = a[0];
        let y = b[0];
        if x != y {
            assert(a.contains(x) && words.contains(x) && b.contains(x));
            assert(b.contains(y) && words.contains(y) && a.contains(y));
            let j = choose|j: int| 0 <= j < b.len() && b[j] == x;
            let k = choose|k: int| 0 <= k < a.len() && a[k] == y;
            assert(j > 0 && k > 0);
            assert(lex_lt(y, x));
            assert(lex_lt(x, y));
            lemma_lex_transitive(x, y, x);
            lemma_lex_irreflexive(x);
        }
        let rest = words.remove(x);
        let a1 = a.drop_first();
        let b1 = b.drop_first();
        assert forall|w: Seq<char>| a1.contains(w) <==> rest.contains(w) by {
            if a1.contains(w) {
                let i = choose|i: int| 0 <= i < a1.len() && a1[i] == w;
                assert(a[i + 1] == w);
                assert(lex_lt(a[0], a[i + 1]));
                if w == x {
                    lemma_lex_irreflexive(x);
                }
            }
            if rest.contains(w) {
                assert(a.contains(w));
                let i = choose|i: int| 0 <= i < a.len() && a[i] == w;
                assert(i != 0);
                assert(a1[i - 1] == w);
            }
        }
        assert forall|w: Seq<char>| b1.contains(w) <==> rest.contains(w) by {
            if b1.contains(w) {
                let i = choose|i: int| 0 <= i < b1.len() && b1[i] == w;
                assert(b[i + 1] == w);
                assert(lex_lt(b[0], b[i + 1]));
                if w == x {
                    lemma_lex_irreflexive(x);
                }
            }
            if rest.contains(w) {
                assert(b.contains(w));
                let i = choose|i: int| 0 <= i < b.len() && b[i] == w;
                assert(i != 0);
                assert(b1[i - 1] == w);
            }
        }
        assert(strictly_sorted(a1)) by {
            assert forall|i: int, j: int| 0 <= i < j < a1.len() implies lex_lt(a1[i], a1[j]) by {
                assert(a1[i] == a[i + 1] && a1[j] == a[j + 1]);
            }
        }
        assert(strictly_sorted(b1)) by {
            assert forall|i: int, j: int| 0 <= i < j < b1.len() implies lex_lt(b1[i], b1[j]) by {
                assert(b1[i] == b[i + 1] && b1[j] == b[j + 1]);
            }
        }
        lemma_sorted_listing_unique(a1, b1, rest);
        assert(a =~= seq![x] + a1);
        assert(b =~= seq![x] + b1);
    }
}

} // verus!
