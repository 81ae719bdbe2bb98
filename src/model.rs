use vstd::prelude::*;
use crate::text::{views, Sentence};
use crate::vocab::{build_vocabulary, is_vocabulary_of, occurs};

verus! {

/// The sentiment of a sentence, positive or negative.
#[derive(Clone, Copy, Debug, PartialEq, Eq, Structural)]
pub enum Sentiment {
    Good,
    Bad,
}

/// The cell that stands for Good in a stored table.
pub open spec fn one_cell() -> Seq<char> {
    seq!['1']
}

/// The cell that stands for Bad, or for an absent word, in a stored table.
pub open spec fn zero_cell() -> Seq<char> {
    seq!['0']
}

/// The stored form of a label: `1` for Good, `0` for Bad.
pub open spec fn label_cell(good: bool) -> Seq<char> {
    if good {
        one_cell()
    } else {
        zero_cell()
    }
}

impl Sentiment {
    /// The text that stands for this verdict in a stored table.
    pub fn into_storage(&self) -> (r: &'static str)
        ensures
            r@ == label_cell(*self == Sentiment::Good),
    {
        proof {
            reveal_strlit("1");
            reveal_strlit("0");
        }
        match self {
            Sentiment::Good => "1",
            Sentiment::Bad => "0",
        }
    }
}

/// A pair of counters: of Good sentences and of Bad ones.
#[derive(Clone, Copy, Debug, PartialEq, Eq, Structural)]
pub struct SentimentCount {
    pub good: usize,
    pub bad: usize,
}

/// One word of a model, with its counters.
#[derive(Clone, Debug)]
pub struct WordEntry {
    pub word: String,
    pub count: SentimentCount,
}

/// What the classifier needs of a training corpus: for each word seen, how many
/// Good and how many Bad sentences hold it; the number of vocabulary words; and how
/// many sentences were Good and how many Bad.
pub struct TrainedModel {
    entries: Vec<WordEntry>,
    vocab_size: usize,
    totals: SentimentCount,
    counts: Ghost<Map<Seq<char>, (nat, nat)>>,
}

/// Each entry's word is a key of `counts`, with the entry's counters, and each key
/// has an entry.
pub open spec fn entries_match(entries: Seq<WordEntry>, counts: Map<Seq<char>, (nat, nat)>) -> bool {
    &&& forall|i: int|
        0 <= i < entries.len() ==> #[trigger] counts.contains_key(entries[i].word@) && counts[entries[i].word@]
            == (entries[i].count.good as nat, entries[i].count.bad as nat)
    &&& forall|w: Seq<char>|
        #[trigger] counts.contains_key(w) ==> exists|i: int| 0 <= i < entries.len() && entries[i].word@ == w
}

impl View for TrainedModel {
    type V = Map<Seq<char>, (nat, nat)>;

    /// Each word of the model, with its (good, bad) counters.
    closed spec fn view(&self) -> Map<Seq<char>, (nat, nat)> {
        self.counts@
    }
}

impl TrainedModel {
    /// The entries agree with the map that the model stands for.
    pub closed spec fn wf(&self) -> bool {
        entries_match(self.entries@, self.counts@)
    }

    /// The number of vocabulary words that the model was encoded with.
    pub closed spec fn vocab_size_spec(&self) -> nat {
        self.vocab_size as nat
    }

    /// How many training sentences were Good, and how many Bad.
    pub closed spec fn totals_spec(&self) -> (nat, nat) {
        (self.totals.good as nat, self.totals.bad as nat)
    }

    /// The number of vocabulary words that the model was encoded with.
    pub fn vocab_size(&self) -> (r: usize)
        ensures
            r == self.vocab_size_spec(),
    {
        self.vocab_size
    }

    /// How many training sentences were Good, and how many Bad.
    pub fn totals(&self) -> (r: SentimentCount)
        ensures
            (r.good as nat, r.bad as nat) == self.totals_spec(),
    {
        self.totals
    }

    /// A model made of `entries` that agree with `counts`.
    pub(crate) fn from_parts(
        entries: Vec<WordEntry>,
        vocab_size: usize,
        totals: SentimentCount,
        counts: Ghost<Map<Seq<char>, (nat, nat)>>,
    ) -> (m: Self)
        requires
            entries_match(entries@, counts@),
        ensures
            m.wf(),
            m@ == counts@,
            m.vocab_size_spec() == vocab_size,
            m.totals_spec() == (totals.good as nat, totals.bad as nat),
    {
        TrainedModel { entries, vocab_size, totals, counts }
    }

    /// The counters of `word`, if the model holds it.
    pub fn get(&self, word: &String) -> (r: Option<SentimentCount>)
        requires
            self.wf(),
        ensures
            match r {
                Some(c) => self@.contains_key(word@) && self@[word@] == (c.good as nat, c.bad as nat),
                None => !self@.contains_key(word@),
            },
    {
        let mut i: usize = 0;
        while i < self.entries.len()
            invariant
                self.wf(),
                i <= self.entries.len(),
                forall|k: int| 0 <= k < i ==> self.entries@[k].word@ != word@,
            decreases self.entries.len() - i,
        {
            if self.entries[i].word == *word {
                assert(self.counts@.contains_key(self.entries@[i as int].word@));
                return Some(self.entries[i].count);
            }
            i = i + 1;
        }
        None
    }
}

/// The number of sentences with label `good` that hold `w`.
pub open spec fn count_with(sents: Seq<Sentence>, w: Seq<char>, good: bool) -> nat
    decreases sents.len(),
{
    if sents.len() == 0 {
        0
    } else {
        count_with(sents.drop_last(), w, good) + if sents.last().good == good
            && sents.last().words_view().contains(w) {
            1nat
        } else {
            0nat
        }
    }
}

/// The number of sentences that hold `w`.
pub open spec fn count_containing(sents: Seq<Sentence>, w: Seq<char>) -> nat
    decreases sents.len(),
{
    if sents.len() == 0 {
        0
    } else {
        count_containing(sents.drop_last(), w) + if sents.last().words_view().contains(w) {
            1nat
        } else {
            0nat
        }
    }
}

/// The number of sentences with label `good`.
pub open spec fn count_labeled(sents: Seq<Sentence>, good: bool) -> nat
    decreases sents.len(),
{
    if sents.len() == 0 {
        0
    } else {
        count_labeled(sents.drop_last(), good) + if sents.last().good == good {
            1nat
        } else {
            0nat
        }
    }
}

/// The counters that a corpus gives the words of `vocab`: a word is a key once
/// some sentence holds it, and maps to (Good sentences that hold it, Bad ones).
pub open spec fn corpus_counts(vocab: Seq<Seq<char>>, sents: Seq<Sentence>) -> Map<
    Seq<char>,
    (nat, nat),
> {
    Map::new(
        |w: Seq<char>| vocab.contains(w) && count_containing(sents, w) > 0,
        |w: Seq<char>| (count_with(sents, w, true), count_with(sents, w, false)),
    )
}

/// Each sentence that holds a word is counted once, as Good or as Bad: the two
/// counters of a word add up to the number of sentences that hold it.
pub proof fn lemma_counts_partition(sents: Seq<Sentence>, w: Seq<char>)
    ensures
        count_with(sents, w, true) + count_with(sents, w, false) == count_containing(sents, w),
        count_containing(sents, w) <= sents.len(),
    decreases sents.len(),
{
    if sents.len() > 0 {
        lemma_counts_partition(sents.drop_last(), w);
    }
}

/// For every word of a model trained on a corpus, its Good and Bad counters add up
/// to the number of training sentences that hold it.
pub proof fn lemma_model_counts_partition(vocab: Seq<Seq<char>>, sents: Seq<Sentence>, w: Seq<char>)
    requires
        corpus_counts(vocab, sents).contains_key(w),
    ensures
        corpus_counts(vocab, sents)[w].0 + corpus_counts(vocab, sents)[w].1 == count_containing(
            sents,
            w,
        ),
{
    lemma_counts_partition(sents, w);
}

/// Whether the sentence holds `w` among its tokens.
pub fn sentence_has(s: &Sentence, w: &String) -> (r: bool)
    ensures
        r == s.words_view().contains(w@),
{
    let mut j: usize = 0;
    while j < s.words.len()
        invariant
            j <= s.words.len(),
            forall|k: int| 0 <= k < j ==> s.words_view()[k] != w@,
        decreases s.words.len() - j,
    {
        if s.words[j] == *w {
            assert(s.words_view()[j as int] == w@);
            return true;
        }
        j = j + 1;
    }
    false
}

/// How many sentences of each label hold `w`.
pub fn count_word(w: &String, sents: &Vec<Sentence>) -> (r: SentimentCount)
    ensures
        r.good == count_with(sents@, w@, true),
        r.bad == count_with(sents@, w@, false),
{
    let mut good: usize = 0;
    let mut bad: usize = 0;
    let mut k: usize = 0;
    while k < sents.len()
        invariant
            k <= sents.len(),
            good == count_with(sents@.take(k as int), w@, true),
            bad == count_with(sents@.take(k as int), w@, false),
            good + bad <= k,
        decreases sents.len() - k,
    {
        assert(sents@.take(k + 1).drop_last() == sents@.take(k as int));
        if sentence_has(&sents[k], w) {
            if sents[k].good {
                good = good + 1;
            } else {
                bad = bad + 1;
            }
        }
        k = k + 1;
    }
    assert(sents@.take(k as int) == sents@);
    SentimentCount { good, bad }
}

/// How many sentences are Good, and how many Bad.
pub fn count_labels(sents: &Vec<Sentence>) -> (r: SentimentCount)
    ensures
        r.good == count_labeled(sents@, true),
        r.bad == count_labeled(sents@, false),
{
    let mut good: usize = 0;
    let mut bad: usize = 0;
    let mut k: usize = 0;
    while k < sents.len()
        invariant
            k <= sents.len(),
            good == count_labeled(sents@.take(k as int), true),
            bad == count_labeled(sents@.take(k as int), false),
            good + bad <= k,
        decreases sents.len() - k,
    {
        assert(sents@.take(k + 1).drop_last() == sents@.take(k as int));
        if sents[k].good {
            good = good + 1;
        } else {
            bad = bad + 1;
        }
        k = k + 1;
    }
    assert(sents@.take(k as int) == sents@);
    SentimentCount { good, bad }
}

/// Counts, for each word of `vocab`, the Good and the Bad sentences that hold it.
/// A word that no sentence holds gets no entry.
pub fn aggregate(vocab: &Vec<String>, sents: &Vec<Sentence>) -> (m: TrainedModel)
    ensures
        m.wf(),
        m@ == corpus_counts(views(vocab@), sents@),
        m.vocab_size_spec() == vocab.len(),
        m.totals_spec() == (count_labeled(sents@, true), count_labeled(sents@, false)),
{
    let mut entries: Vec<WordEntry> = Vec::new();
    let ghost mut counts: Map<Seq<char>, (nat, nat)> = Map::empty();
    let mut i: usize = 0;
    while i < vocab.len()
        invariant
            i <= vocab.len(),
            counts == corpus_counts(views(vocab@).take(i as int), sents@),
            entries_match(entries@, counts),
        decreases vocab.len() - i,
    {
        let w = &vocab[i];
        let c = count_word(w, sents);
        let ghost before = views(vocab@).take(i as int);
        let ghost after = views(vocab@).take(i + 1);
        assert(after =~= before.push(w@));
        proof {
            lemma_counts_partition(sents@, w@);
            assert forall|x: Seq<char>| after.contains(x) <==> (before.contains(x) || x == w@) by {
                if after.contains(x) {
                    let k = choose|k: int| 0 <= k < after.len() && after[k] == x;
                    if k < before.len() {
                        assert(before[k] == x);
                    }
                }
                if before.contains(x) {
                    let k = choose|k: int| 0 <= k < before.len() && before[k] == x;
                    assert(after[k] == x);
                }
                if x == w@ {
                    assert(after[i as int] == x);
                }
            }
        }
        let ghost c0 = counts;
        if c.good > 0 || c.bad > 0 {
            let ghost e0 = entries@;
            entries.push(WordEntry { word: w.clone(), count: c });
            proof {
                counts = counts.insert(w@, (c.good as nat, c.bad as nat));
                assert(counts =~= corpus_counts(after, sents@));
                assert forall|k: int| 0 <= k < entries@.len() implies #[trigger] counts.contains_key(
                    entries@[k].word@,
                ) && counts[entries@[k].word@] == (
                    entries@[k].count.good as nat,
                    entries@[k].count.bad as nat,
                ) by {
                    if k < e0.len() {
                        assert(entries@[k] == e0[k]);
                        assert(c0.contains_key(e0[k].word@));
                    }
                }
                assert forall|x: Seq<char>| #[trigger] counts.contains_key(x) implies exists|k: int|
                    0 <= k < entries@.len() && entries@[k].word@ == x by {
                    if x != w@ {
                        assert(c0.contains_key(x));
                        let k = choose|k: int| 0 <= k < e0.len() && e0[k].word@ == x;
                        assert(entries@[k].word@ == x);
                    } else {
                        assert(entries@[e0.len() as int].word@ == x);
                    }
                }
            }
        } else {
            proof {
                assert(counts =~= corpus_counts(after, sents@));
            }
        }
        i = i + 1;
    }
    assert(views(vocab@).take(vocab.len() as int) == views(vocab@));
    TrainedModel {
        entries,
        vocab_size: vocab.len(),
        totals: count_labels(sents),
        counts: Ghost(counts),
    }
}

/// The counters that training on a corpus gives: each non-empty token of the corpus
/// maps to (Good sentences that hold it, Bad ones).
pub open spec fn trained_counts(sents: Seq<Sentence>) -> Map<Seq<char>, (nat, nat)> {
    Map::new(
        |w: Seq<char>| w.len() > 0 && count_containing(sents, w) > 0,
        |w: Seq<char>| (count_with(sents, w, true), count_with(sents, w, false)),
    )
}

proof fn lemma_occurs_counted(sents: Seq<Sentence>, w: Seq<char>)
    ensures
        occurs(sents, w) <==> count_containing(sents, w) > 0,
    decreases sents.len(),
{
    if sents.len() > 0 {
        let init = sents.drop_last();
        lemma_occurs_counted(init, w);
        let last = sents.last();
        if occurs(sents, w) {
            let (k, j) = choose|k: int, j: int|
                0 <= k < sents.len() && 0 <= j < sents[k].words_view().len()
                    && #[trigger] sents[k].words_view()[j] == w;
            if k < init.len() {
                assert(init[k] == sents[k]);
                assert(occurs(init, w));
            } else {
                assert(last.words_view().contains(w));
            }
        }
        if count_containing(sents, w) > 0 {
            if occurs(init, w) {
                let (k, j) = choose|k: int, j: int|
                    0 <= k < init.len() && 0 <= j < init[k].words_view().len()
                        && #[trigger] init[k].words_view()[j] == w;
                assert(sents[k] == init[k]);
                assert(sents[k].words_view()[j] == w);
            } else {
                assert(last.words_view().contains(w));
                let j = choose|j: int| 0 <= j < last.words_view().len() && last.words_view()[j] == w;
                assert(sents[sents.len() - 1].words_view()[j] == w);
            }
        }
    }
}

/// Trains a model on a labeled corpus: builds its vocabulary and counts each word.
pub fn train(sents: &Vec<Sentence>) -> (m: TrainedModel)
    ensures
        m.wf(),
        m@ == trained_counts(sents@),
        exists|v: Seq<Seq<char>>| is_vocabulary_of(v, sents@) && m.vocab_size_spec() == v.len(),
        m.totals_spec() == (count_labeled(sents@, true), count_labeled(sents@, false)),
{
    let vocab = build_vocabulary(sents);
    let m = aggregate(&vocab, sents);
    let ghost v = views(vocab@);
    assert(is_vocabulary_of(v, sents@));
    assert(m.vocab_size_spec() == v.len());
    assert forall|w: Seq<char>| #[trigger] m@.contains_key(w) <==> trained_counts(sents@).contains_key(w) by {
        lemma_occurs_counted(sents@, w);
    }
    assert(m@ =~= trained_counts(sents@));
    m
}

} // verus!
