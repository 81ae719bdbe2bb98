use vstd::prelude::*;
use crate::text::{chars_of, views, Sentence};

verus! {

/// Lexicographic order on character sequences, by code point; a proper prefix
/// comes first. This is the order of `String`'s `<`.
pub open spec fn lex_lt(a: Seq<char>, b: Seq<char>) -> bool
    decreases a.len(),
{
    if a.len() == 0 {
        b.len() > 0
    } else if b.len() == 0 {
        false
    } else if a[0] != b[0] {
        a[0] < b[0]
    } else {
        lex_lt(a.drop_first(), b.drop_first())
    }
}

/// Strictly increasing: sorted, without duplicates.
pub open spec fn strictly_sorted(s: Seq<Seq<char>>) -> bool {
    forall|i: int, j: int| 0 <= i < j < s.len() ==> lex_lt(#[trigger] s[i], #[trigger] s[j])
}

/// `w` is a token of one of the sentences.
pub open spec fn occurs(sents: Seq<Sentence>, w: Seq<char>) -> bool {
    exists|k: int, j: int|
        0 <= k < sents.len() && 0 <= j < sents[k].words_view().len() && #[trigger] sents[k].words_view()[j]
            == w
}

/// Every entry is a non-empty token of the corpus.
pub open spec fn drawn_from(v: Seq<Seq<char>>, sents: Seq<Sentence>) -> bool {
    forall|i: int| 0 <= i < v.len() ==> (#[trigger] v[i]).len() > 0 && occurs(sents, v[i])
}

/// A vocabulary of a corpus: its non-empty tokens, each once, in increasing order.
pub open spec fn is_vocabulary_of(v: Seq<Seq<char>>, sents: Seq<Sentence>) -> bool {
    &&& strictly_sorted(v)
    &&& forall|w: Seq<char>| v.contains(w) <==> (w.len() > 0 && occurs(sents, w))
}

/// No sequence comes before itself.
pub proof fn lemma_lex_irreflexive(a: Seq<char>)
    ensures
        !lex_lt(a, a),
    decreases a.len(),
{
    if a.len() > 0 {
        lemma_lex_irreflexive(a.drop_first());
    }
}

/// Of two different sequences exactly one comes first.
pub proof fn lemma_lex_total(a: Seq<char>, b: Seq<char>)
    ensures
        a != b ==> (lex_lt(a, b) || lex_lt(b, a)),
        !(lex_lt(a, b) && lex_lt(b, a)),
    decreases a.len(),
{
    if a.len() > 0 && b.len() > 0 {
        lemma_lex_total(a.drop_first(), b.drop_first());
        if a[0] == b[0] && a.drop_first() == b.drop_first() {
            assert(a =~= seq![a[0]] + a.drop_first());
            assert(b =~= seq![b[0]] + b.drop_first());
        }
    } else if a.len() == 0 && b.len() == 0 {
        assert(a =~= b);
    }
}

/// The order is transitive.
pub proof fn lemma_lex_transitive(a: Seq<char>, b: Seq<char>, c: Seq<char>)
    requires
        lex_lt(a, b),
        lex_lt(b, c),
    ensures
        lex_lt(a, c),
    decreases a.len(),
{
    if a.len() > 0 && b.len() > 0 && c.len() > 0 {
        if a[0] == b[0] && b[0] == c[0] {
            lemma_lex_transitive(a.drop_first(), b.drop_first(), c.drop_first());
        }
    }
}

/// Whether `a` comes strictly before `b` in lexicographic order.
pub fn lex_less(a: &str, b: &str) -> (r: bool)
    ensures
        r == lex_lt(a@, b@),
{
    let x = chars_of(a);
    let y = chars_of(b);
    let mut i: usize = 0;
    assert(a@.skip(0) == a@ && b@.skip(0) == b@);
    while i < x.len() && i < y.len() && x[i] == y[i]
        invariant
            x@ == a@,
            y@ == b@,
            i <= x.len(),
            i <= y.len(),
            lex_lt(a@, b@) == lex_lt(a@.skip(i as int), b@.skip(i as int)),
        decreases x.len() - i,
    {
        assert(a@.skip(i as int).drop_first() =~= a@.skip(i + 1));
        assert(b@.skip(i as int).drop_first() =~= b@.skip(i + 1));
        i = i + 1;
    }
    if i == x.len() {
        i < y.len()
    } else if i == y.len() {
        false
    } else {
        x[i] < y[i]
    }
}

/// Puts `w` into its place in a strictly sorted vector, unless it is there already.
pub fn insert_sorted(v: &mut Vec<String>, w: String)
    requires
        strictly_sorted(views(old(v)@)),
    ensures
        strictly_sorted(views(final(v)@)),
        forall|x: Seq<char>| views(final(v)@).contains(x) <==> (views(old(v)@).contains(x) || x == w@),
{
    let ghost s0 = views(v@);
    let mut i: usize = 0;
    while i < v.len() && lex_less(v[i].as_str(), w.as_str())
        invariant
            views(v@) == s0,
            i <= v.len(),
            forall|k: int| 0 <= k < i ==> lex_lt(#[trigger] s0[k], w@),
        decreases v.len() - i,
    {
        i = i + 1;
    }
    if i < v.len() && v[i] == w {
        assert(s0[i as int] == w@);
        return;
    }
    proof {
        if i < v.len() {
            lemma_lex_total(s0[i as int], w@);
            assert forall|k: int| i <= k < s0.len() implies lex_lt(w@, #[trigger] s0[k]) by {
                if k > i {
                    lemma_lex_transitive(w@, s0[i as int], s0[k]);
                }
            }
        }
    }
    let ghost wv = w@;
    v.insert(i, w);
    let ghost s1 = views(v@);
    assert(s1 =~= s0.insert(i as int, wv));
    assert forall|x: Seq<char>| s1.contains(x) <==> (s0.contains(x) || x == wv) by {
        if s1.contains(x) {
            let k = choose|k: int| 0 <= k < s1.len() && s1[k] == x;
            if k < i {
                assert(s0[k] == x);
            } else if k > i {
                assert(s0[k - 1] == x);
            }
        }
        if s0.contains(x) {
            let k = choose|k: int| 0 <= k < s0.len() && s0[k] == x;
            if k < i {
                assert(s1[k] == x);
            } else {
                assert(s1[k + 1] == x);
            }
        }
        if x == wv {
            assert(s1[i as int] == x);
        }
    }
}

/// The vocabulary of a corpus: every non-empty token of its sentences, once each,
/// sorted.
pub fn build_vocabulary(sents: &Vec<Sentence>) -> (r: Vec<String>)
    ensures
        is_vocabulary_of(views(r@), sents@),
{
    let mut v: Vec<String> = Vec::new();
    let mut k: usize = 0;
    while k < sents.len()
        invariant
            k <= sents.len(),
            strictly_sorted(views(v@)),
            drawn_from(views(v@), sents@),
            forall|k2: int, j: int|
                0 <= k2 < k && 0 <= j < sents@[k2].words_view().len() && (
                #[trigger] sents@[k2].words_view()[j]).len() > 0 ==> views(v@).contains(
                    sents@[k2].words_view()[j],
                ),
        decreases sents.len() - k,
    {
        let s = &sents[k];
        let mut j: usize = 0;
        while j < s.words.len()
            invariant
                k < sents.len(),
                s == sents@[k as int],
                j <= s.words.len(),
                strictly_sorted(views(v@)),
                drawn_from(views(v@), sents@),
                forall|k2: int, j2: int|
                    0 <= k2 < k && 0 <= j2 < sents@[k2].words_view().len() && (
                    #[trigger] sents@[k2].words_view()[j2]).len() > 0 ==> views(v@).contains(
                        sents@[k2].words_view()[j2],
                    ),
                forall|j2: int|
                    0 <= j2 < j && (#[trigger] s.words_view()[j2]).len() > 0 ==> views(
                        v@,
                    ).contains(s.words_view()[j2]),
            decreases s.words.len() - j,
        {
            let w = s.words[j].clone();
            assert(s.words_view()[j as int] == w@);
            if !w.as_str().is_empty() {
                assert(occurs(sents@, w@));
                let ghost v0 = views(v@);
                let ghost wv = w@;
                insert_sorted(&mut v, w);
                assert forall|i: int| 0 <= i < views(v@).len() implies (#[trigger] views(v@)[i]).len()
                    > 0 && occurs(sents@, views(v@)[i]) by {
                    assert(views(v@).contains(views(v@)[i]));
                    if views(v@)[i] != wv {
                        let i0 = choose|i0: int| 0 <= i0 < v0.len() && v0[i0] == views(v@)[i];
                        assert(v0[i0] == views(v@)[i]);
                    }
                }
            } else {
                assert(w@.len() == 0);
            }
            j = j + 1;
        }
        k = k + 1;
    }
    proof {
        assert forall|x: Seq<char>| views(v@).contains(x) implies x.len() > 0 && occurs(sents@, x) by {
            let i = choose|i: int| 0 <= i < views(v@).len() && views(v@)[i] == x;
            assert(views(v@)[i] == x);
        }
        assert forall|x: Seq<char>| (x.len() > 0 && occurs(sents@, x)) implies views(v@).contains(
            x,
        ) by {
            let (k2, j2) = choose|k2: int, j2: int|
                0 <= k2 < sents@.len() && 0 <= j2 < sents@[k2].words_view().len()
                    && #[trigger] sents@[k2].words_view()[j2] == x;
        }
    }
    v
}

} // verus!
