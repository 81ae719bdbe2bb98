use vstd::prelude::*;
use crate::model::{Sentiment, SentimentCount, TrainedModel};
use crate::natural::Natural;
use crate::text::{parse_sentence, parse_sentence_spec, views, LineError, Sentence};

verus! {

/// The factor that `w` brings to a score: its Good (or Bad) counter where the model
/// holds it, and 1 where it does not.
pub open spec fn factor(m: Map<Seq<char>, (nat, nat)>, w: Seq<char>, good: bool) -> nat {
    if m.contains_key(w) {
        if good {
            m[w].0
        } else {
            m[w].1
        }
    } else {
        1
    }
}

/// The product of the factors of the words of a sentence.
pub open spec fn score(m: Map<Seq<char>, (nat, nat)>, ws: Seq<Seq<char>>, good: bool) -> nat
    decreases ws.len(),
{
    if ws.len() == 0 {
        1
    } else {
        score(m, ws.drop_last(), good) * factor(m, ws.last(), good)
    }
}

/// The verdict on a sentence: Good exactly when
/// `score_good / total_good > score_bad / total_bad`, compared exactly as
/// `score_good * total_bad > score_bad * total_good`; a tie is Bad.
pub open spec fn verdict(m: Map<Seq<char>, (nat, nat)>, ws: Seq<Seq<char>>, totals: (nat, nat)) -> Sentiment {
    if score(m, ws, true) * totals.1 > score(m, ws, false) * totals.0 {
        Sentiment::Good
    } else {
        Sentiment::Bad
    }
}

/// The verdict that a labeled sentence should get.
pub open spec fn expected(s: Sentence) -> Sentiment {
    if s.good {
        Sentiment::Good
    } else {
        Sentiment::Bad
    }
}

/// Classifies the tokens `evidence` against a model, given how many training
/// sentences were Good and how many Bad.
pub fn classify(data: &TrainedModel, evidence: &[String], quality_count: SentimentCount) -> (r: Sentiment)
    requires
        data.wf(),
    ensures
        r == verdict(
            data@,
            views(evidence@),
            (quality_count.good as nat, quality_count.bad as nat),
        ),
{
    let ghost m = data@;
    let ghost ws = views(evidence@);
    let mut good = Natural::from_usize(1);
    let mut bad = Natural::from_usize(1);
    let mut i: usize = 0;
    while i < evidence.len()
        invariant
            data.wf(),
            m == data@,
            ws == views(evidence@),
            i <= evidence.len(),
            good@ == score(m, ws.take(i as int), true),
            bad@ == score(m, ws.take(i as int), false),
        decreases evidence.len() - i,
    {
        assert(ws.take(i + 1).drop_last() =~= ws.take(i as int));
        assert(ws.take(i + 1).last() == evidence@[i as int]@);
        match data.get(&evidence[i]) {
            Some(c) => {
                good.mul_usize(c.good);
                bad.mul_usize(c.bad);
            },
            None => {},
        }
        i = i + 1;
    }
    assert(ws.take(evidence.len() as int) =~= ws);
    good.mul_usize(quality_count.bad);
    bad.mul_usize(quality_count.good);
    if good.greater(&bad) {
        Sentiment::Good
    } else {
        Sentiment::Bad
    }
}

/// A verdict depends on the model's counters, the sentence's tokens and the totals
/// alone: the same pair of model and sentence always gets the same verdict.
pub proof fn lemma_verdict_deterministic(
    m1: Map<Seq<char>, (nat, nat)>,
    m2: Map<Seq<char>, (nat, nat)>,
    ws1: Seq<Seq<char>>,
    ws2: Seq<Seq<char>>,
    totals: (nat, nat),
)
    requires
        m1 == m2,
        ws1 == ws2,
    ensures
        verdict(m1, ws1, totals) == verdict(m2, ws2, totals),
{
}

/// How many of the sentences get the verdict that their label states.
pub open spec fn count_correct(m: Map<Seq<char>, (nat, nat)>, totals: (nat, nat), tests: Seq<Sentence>) -> nat
    decreases tests.len(),
{
    if tests.len() == 0 {
        0
    } else {
        count_correct(m, totals, tests.drop_last()) + if verdict(
            m,
            tests.last().words_view(),
            totals,
        ) == expected(tests.last()) {
            1nat
        } else {
            0nat
        }
    }
}

/// The outcome of an evaluation: how many test sentences were classified as their
/// label states, out of how many.
#[derive(Clone, Copy, Debug, PartialEq, Eq, Structural)]
pub struct Evaluation {
    pub correct: usize,
    pub total: usize,
}

/// Why an evaluation could not be made.
#[derive(Clone, Copy, Debug, PartialEq, Eq, Structural)]
pub enum EvalError {
    /// There was no test sentence, so no accuracy is defined.
    EmptyTestSet,
}

/// Classifies every test sentence against the model, with the model's training
/// totals, and counts the verdicts that match the labels.
pub fn evaluate(model: &TrainedModel, tests: &Vec<Sentence>) -> (r: Result<Evaluation, EvalError>)
    requires
        model.wf(),
    ensures
        tests.len() == 0 <==> r == Err::<Evaluation, EvalError>(EvalError::EmptyTestSet),
        r is Ok ==> r->Ok_0.total == tests.len() && r->Ok_0.correct == count_correct(
            model@,
            model.totals_spec(),
            tests@,
        ),
{
    if tests.len() == 0 {
        return Err(EvalError::EmptyTestSet);
    }
    let totals = model.totals();
    let mut correct: usize = 0;
    let mut k: usize = 0;
    while k < tests.len()
        invariant
            model.wf(),
            (totals.good as nat, totals.bad as nat) == model.totals_spec(),
            k <= tests.len(),
            correct <= k,
            correct == count_correct(model@, model.totals_spec(), tests@.take(k as int)),
        decreases tests.len() - k,
    {
        assert(tests@.take(k + 1).drop_last() =~= tests@.take(k as int));
        let t = &tests[k];
        let v = classify(model, t.words.as_slice(), totals);
        let right = match v {
            Sentiment::Good => t.good,
            Sentiment::Bad => !t.good,
        };
        if right {
            correct = correct + 1;
        }
        k = k + 1;
    }
    assert(tests@.take(tests.len() as int) =~= tests@);
    Ok(Evaluation { correct, total: tests.len() })
}

/// Where a labeled file fails to read: the index of the first bad line, and why.
#[derive(Clone, Copy, Debug, PartialEq, Eq, Structural)]
pub struct CorpusError {
    pub line: usize,
    pub error: LineError,
}

/// Reads every line of a labeled file as a sentence; the first line that is no
/// labeled sentence fails the whole file.
pub fn parse_sentences(lines: &Vec<String>) -> (r: Result<Vec<Sentence>, CorpusError>)
    ensures
        match r {
            Ok(v) => v.len() == lines.len() && forall|k: int|
                0 <= k < lines.len() ==> parse_sentence_spec(#[trigger] lines@[k]@) == Ok::<
                    (Seq<Seq<char>>, bool),
                    LineError,
                >((v@[k].words_view(), v@[k].good)),
            Err(e) => e.line < lines.len() && parse_sentence_spec(lines@[e.line as int]@) == Err::<
                (Seq<Seq<char>>, bool),
                LineError,
            >(e.error) && forall|k: int|
                0 <= k < e.line ==> (#[trigger] parse_sentence_spec(lines@[k]@)) is Ok,
        },
{
    let mut v: Vec<Sentence> = Vec::new();
    let mut k: usize = 0;
    while k < lines.len()
        invariant
            k <= lines.len(),
            v.len() == k,
            forall|j: int|
                0 <= j < k ==> parse_sentence_spec(#[trigger] lines@[j]@) == Ok::<
                    (Seq<Seq<char>>, bool),
                    LineError,
                >((v@[j].words_view(), v@[j].good)),
        decreases lines.len() - k,
    {
        match parse_sentence(lines[k].as_str()) {
            Ok(s) => {
                v.push(s);
            },
            Err(e) => {
                return Err(CorpusError { line: k, error: e });
            },
        }
        k = k + 1;
    }
    Ok(v)
}

} // verus!
