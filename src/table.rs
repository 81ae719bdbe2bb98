use vstd::prelude::*;
use crate::model::{
    count_labeled, count_with, corpus_counts, entries_match, label_cell, lemma_counts_partition,
    one_cell, zero_cell, Sentiment, SentimentCount, TrainedModel, WordEntry,
};
use crate::text::{chars_of, string_of, views, Sentence};
use crate::vocab::{build_vocabulary, is_vocabulary_of, lemma_lex_irreflexive, lex_lt, strictly_sorted};

verus! {

/// The name of the label column in a stored table's header.
pub open spec fn label_column_name() -> Seq<char> {
    seq!['c', 'l', 'a', 's', 's', 'l', 'a', 'b', 'e', 'l']
}

/// The row that a sentence is stored as: a `1` or `0` cell for each vocabulary word,
/// as the sentence holds it or not, and then its label.
pub open spec fn row_spec(vocab: Seq<Seq<char>>, s: Sentence) -> Seq<Seq<char>> {
    vocab.map_values(
        |w: Seq<char>|
            if s.words_view().contains(w) {
                one_cell()
            } else {
                zero_cell()
            },
    ).push(label_cell(s.good))
}

/// The rows that a corpus is stored as, one per sentence.
pub open spec fn rows_spec(vocab: Seq<Seq<char>>, sents: Seq<Sentence>) -> Seq<Seq<Seq<char>>> {
    sents.map_values(|s: Sentence| row_spec(vocab, s))
}

/// The cells of the rows of a table.
pub open spec fn rows_view(data: Seq<Vec<String>>) -> Seq<Seq<Seq<char>>> {
    data.map_values(|r: Vec<String>| views(r@))
}

/// A stored row is labeled Good when its last cell is `1`.
pub open spec fn row_is_good(row: Seq<Seq<char>>) -> bool {
    row.last() == one_cell()
}

/// The number of rows with label `good` whose cell in column `i` is `1`.
pub open spec fn column_count(rows: Seq<Seq<Seq<char>>>, i: int, good: bool) -> nat
    decreases rows.len(),
{
    if rows.len() == 0 {
        0
    } else {
        column_count(rows.drop_last(), i, good) + if rows.last()[i] == one_cell() && row_is_good(
            rows.last(),
        ) == good {
            1nat
        } else {
            0nat
        }
    }
}

/// The number of rows with label `good`.
pub open spec fn rows_labeled(rows: Seq<Seq<Seq<char>>>, good: bool) -> nat
    decreases rows.len(),
{
    if rows.len() == 0 {
        0
    } else {
        rows_labeled(rows.drop_last(), good) + if row_is_good(rows.last()) == good {
            1nat
        } else {
            0nat
        }
    }
}

/// The word column of a header that is named `w`.
pub open spec fn column_of(words: Seq<Seq<char>>, w: Seq<char>) -> int {
    choose|i: int| 0 <= i < words.len() - 1 && words[i] == w
}

/// The counters that the first `n` word columns of a table give: a word is a key once
/// its column holds a `1`.
pub open spec fn table_counts_upto(words: Seq<Seq<char>>, rows: Seq<Seq<Seq<char>>>, n: int) -> Map<
    Seq<char>,
    (nat, nat),
> {
    Map::new(
        |w: Seq<char>|
            exists|i: int|
                0 <= i < n && #[trigger] words[i] == w && column_count(rows, i, true) + column_count(
                    rows,
                    i,
                    false,
                ) > 0,
        |w: Seq<char>|
            (
                column_count(rows, column_of(words, w), true),
                column_count(rows, column_of(words, w), false),
            ),
    )
}

/// The counters that a table gives, over all its word columns (the last column is
/// the label).
pub open spec fn table_counts(words: Seq<Seq<char>>, rows: Seq<Seq<Seq<char>>>) -> Map<
    Seq<char>,
    (nat, nat),
> {
    table_counts_upto(words, rows, words.len() - 1)
}

/// A table whose header names each word column once and whose rows are as wide
/// as the header.
pub open spec fn table_well_formed(words: Seq<Seq<char>>, rows: Seq<Seq<Seq<char>>>) -> bool {
    &&& words.len() >= 1
    &&& words.drop_last().no_duplicates()
    &&& forall|k: int| 0 <= k < rows.len() ==> (#[trigger] rows[k]).len() == words.len()
}

/// The header of a stored table: the vocabulary, then the label column.
pub fn table_header(vocab: &Vec<String>) -> (r: Vec<String>)
    ensures
        views(r@) == views(vocab@).push(label_column_name()),
{
    let mut r: Vec<String> = Vec::new();
    let mut i: usize = 0;
    while i < vocab.len()
        invariant
            i <= vocab.len(),
            views(r@) == views(vocab@).take(i as int),
        decreases vocab.len() - i,
    {
        let ghost r0 = views(r@);
        r.push(vocab[i].clone());
        assert(views(r@) =~= r0.push(vocab@[i as int]@));
        assert(views(vocab@).take(i + 1) =~= views(vocab@).take(i as int).push(vocab@[i as int]@));
        i = i + 1;
    }
    let name = "classlabel".to_string();
    proof {
        reveal_strlit("classlabel");
    }
    assert(name@ == label_column_name());
    let ghost r0 = views(r@);
    r.push(name);
    assert(views(vocab@).take(vocab.len() as int) == views(vocab@));
    assert(views(r@) =~= r0.push(label_column_name()));
    r
}

/// The row that `s` is stored as.
pub fn encode_row(vocab: &Vec<String>, s: &Sentence) -> (r: Vec<String>)
    ensures
        views(r@) == row_spec(views(vocab@), *s),
        r.len() == vocab.len() + 1,
{
    let mut r: Vec<String> = Vec::new();
    let ghost f = |w: Seq<char>|
        if s.words_view().contains(w) {
            one_cell()
        } else {
            zero_cell()
        };
    let mut i: usize = 0;
    while i < vocab.len()
        invariant
            i <= vocab.len(),
            views(r@) == views(vocab@).take(i as int).map_values(f),
            f == (|w: Seq<char>|
                if s.words_view().contains(w) {
                    one_cell()
                } else {
                    zero_cell()
                }),
        decreases vocab.len() - i,
    {
        let present = crate::model::sentence_has(s, &vocab[i]);
        let cell = if present {
            Sentiment::Good.into_storage().to_string()
        } else {
            Sentiment::Bad.into_storage().to_string()
        };
        let ghost r0 = views(r@);
        r.push(cell);
        assert(views(r@) =~= r0.push(cell@));
        assert(views(vocab@).take(i + 1).map_values(f) =~= views(vocab@).take(i as int).map_values(
            f,
        ).push(f(vocab@[i as int]@)));
        i = i + 1;
    }
    let label = if s.good {
        Sentiment::Good
    } else {
        Sentiment::Bad
    };
    let cell = label.into_storage().to_string();
    let ghost r0 = views(r@);
    r.push(cell);
    assert(views(vocab@).take(vocab.len() as int) == views(vocab@));
    assert(views(r@) =~= r0.push(cell@));
    r
}

/// The rows that a corpus is stored as: each as wide as the vocabulary plus the
/// label column.
pub fn encode_table(vocab: &Vec<String>, sents: &Vec<Sentence>) -> (r: Vec<Vec<String>>)
    ensures
        rows_view(r@) == rows_spec(views(vocab@), sents@),
        r.len() == sents.len(),
        forall|k: int| 0 <= k < r.len() ==> (#[trigger] r@[k]).len() == vocab.len() + 1,
{
    let mut r: Vec<Vec<String>> = Vec::new();
    let mut k: usize = 0;
    while k < sents.len()
        invariant
            k <= sents.len(),
            rows_view(r@) == rows_spec(views(vocab@), sents@.take(k as int)),
            forall|j: int| 0 <= j < r.len() ==> (#[trigger] r@[j]).len() == vocab.len() + 1,
        decreases sents.len() - k,
    {
        let row = encode_row(vocab, &sents[k]);
        let ghost r0 = rows_view(r@);
        r.push(row);
        assert(rows_view(r@) =~= r0.push(views(row@)));
        assert(rows_spec(views(vocab@), sents@.take(k + 1)) =~= rows_spec(
            views(vocab@),
            sents@.take(k as int),
        ).push(row_spec(views(vocab@), sents@[k as int])));
        k = k + 1;
    }
    assert(sents@.take(sents.len() as int) == sents@);
    r
}

/// How many rows of each label hold a `1` in column `i`.
fn count_column(data: &Vec<Vec<String>>, i: usize, width: usize) -> (r: SentimentCount)
    requires
        i < width,
        forall|k: int| 0 <= k < data.len() ==> (#[trigger] data@[k]).len() == width,
    ensures
        r.good == column_count(rows_view(data@), i as int, true),
        r.bad == column_count(rows_view(data@), i as int, false),
{
    let one = Sentiment::Good.into_storage().to_string();
    let mut good: usize = 0;
    let mut bad: usize = 0;
    let mut k: usize = 0;
    while k < data.len()
        invariant
            i < width,
            forall|j: int| 0 <= j < data.len() ==> (#[trigger] data@[j]).len() == width,
            one@ == one_cell(),
            k <= data.len(),
            good == column_count(rows_view(data@).take(k as int), i as int, true),
            bad == column_count(rows_view(data@).take(k as int), i as int, false),
            good + bad <= k,
        decreases data.len() - k,
    {
        let row = &data[k];
        assert(rows_view(data@).take(k + 1).drop_last() == rows_view(data@).take(k as int));
        assert(rows_view(data@).take(k + 1).last() == views(row@));
        assert(views(row@)[i as int] == row@[i as int]@);
        assert(views(row@).last() == row@[width - 1]@);
        if row[i] == one {
            if row[width - 1] == one {
                good = good + 1;
            } else {
                bad = bad + 1;
            }
        }
        k = k + 1;
    }
    assert(rows_view(data@).take(data.len() as int) == rows_view(data@));
    SentimentCount { good, bad }
}

/// How many rows are labeled Good, and how many Bad.
fn count_row_labels(data: &Vec<Vec<String>>, width: usize) -> (r: SentimentCount)
    requires
        width >= 1,
        forall|k: int| 0 <= k < data.len() ==> (#[trigger] data@[k]).len() == width,
    ensures
        r.good == rows_labeled(rows_view(data@), true),
        r.bad == rows_labeled(rows_view(data@), false),
{
    let one = Sentiment::Good.into_storage().to_string();
    let mut good: usize = 0;
    let mut bad: usize = 0;
    let mut k: usize = 0;
    while k < data.len()
        invariant
            width >= 1,
            forall|j: int| 0 <= j < data.len() ==> (#[trigger] data@[j]).len() == width,
            one@ == one_cell(),
            k <= data.len(),
            good == rows_labeled(rows_view(data@).take(k as int), true),
            bad == rows_labeled(rows_view(data@).take(k as int), false),
            good + bad <= k,
        decreases data.len() - k,
    {
        let row = &data[k];
        assert(rows_view(data@).take(k + 1).drop_last() == rows_view(data@).take(k as int));
        assert(rows_view(data@).take(k + 1).last() == views(row@));
        assert(views(row@).last() == row@[width - 1]@);
        if row[width - 1] == one {
            good = good + 1;
        } else {
            bad = bad + 1;
        }
        k = k + 1;
    }
    assert(rows_view(data@).take(data.len() as int) == rows_view(data@));
    SentimentCount { good, bad }
}

/// Builds a model from a stored table: `words` is its header (the vocabulary, then
/// the label column) and `data` its rows. A word is a key once its column holds a
/// `1`; its counters are the Good and the Bad rows that hold it.
pub fn format_preprocessed(words: Vec<String>, data: Vec<Vec<String>>) -> (m: TrainedModel)
    requires
        table_well_formed(views(words@), rows_view(data@)),
    ensures
        m.wf(),
        m@ == table_counts(views(words@), rows_view(data@)),
        m.vocab_size_spec() == words.len() - 1,
        m.totals_spec() == (
            rows_labeled(rows_view(data@), true),
            rows_labeled(rows_view(data@), false),
        ),
{
    let ghost hv = views(words@);
    let ghost rows = rows_view(data@);
    let width = words.len();
    assert forall|k: int| 0 <= k < data.len() implies (#[trigger] data@[k]).len() == width by {
        assert(rows[k].len() == data@[k].len());
    }
    let mut entries: Vec<WordEntry> = Vec::new();
    let ghost mut counts: Map<Seq<char>, (nat, nat)> = Map::empty();
    let mut i: usize = 0;
    while i < width - 1
        invariant
            hv == views(words@),
            rows == rows_view(data@),
            width == words.len(),
            table_well_formed(hv, rows),
            forall|k: int| 0 <= k < data.len() ==> (#[trigger] data@[k]).len() == width,
            i <= width - 1,
            counts == table_counts_upto(hv, rows, i as int),
            entries_match(entries@, counts),
            forall|x: Seq<char>| #[trigger] counts.contains_key(x) ==> exists|j: int| 0 <= j < i && hv[j] == x,
        decreases width - 1 - i,
    {
        let c = count_column(&data, i, width);
        let w = &words[i];
        assert(hv[i as int] == w@);
        let ghost c0 = counts;
        proof {
            assert(hv.drop_last()[i as int] == hv[i as int]);
            assert(column_of(hv, w@) == i) by {
                let j = column_of(hv, w@);
                assert(0 <= j < hv.len() - 1 && hv[j] == w@);
                assert(hv.drop_last()[j] == hv[j]);
            }
        }
        if c.good > 0 || c.bad > 0 {
            let ghost e0 = entries@;
            entries.push(WordEntry { word: w.clone(), count: c });
            proof {
                counts = counts.insert(w@, (c.good as nat, c.bad as nat));
                assert(!c0.contains_key(w@)) by {
                    if c0.contains_key(w@) {
                        let j = choose|j: int| 0 <= j < i && hv[j] == w@;
                        assert(hv.drop_last()[j] == hv[j]);
                    }
                }
                assert(counts =~= table_counts_upto(hv, rows, i + 1));
                assert forall|k: int| 0 <= k < entries@.len() implies #[trigger] counts.contains_key(
                    entries@[k].word@,
                ) && counts[entries@[k].word@] == (
                    entries@[k].count.good as nat,
                    entries@[k].count.bad as nat,
                ) by {
                    if k < e0.len() {
                        assert(entries@[k] == e0[k]);
                        assert(c0.contains_key(e0[k].word@));
                    }
                }
                assert forall|x: Seq<char>| #[trigger] counts.contains_key(x) implies exists|k: int|
                    0 <= k < entries@.len() && entries@[k].word@ == x by {
                    if x != w@ {
                        assert(c0.contains_key(x));
                        let k = choose|k: int| 0 <= k < e0.len() && e0[k].word@ == x;
                        assert(entries@[k].word@ == x);
                    } else {
                        assert(entries@[e0.len() as int].word@ == x);
                    }
                }
            }
        } else {
            proof {
                assert(counts =~= table_counts_upto(hv, rows, i + 1));
            }
        }
        i = i + 1;
    }
    let totals = count_row_labels(&data, width);
    TrainedModel::from_parts(entries, width - 1, totals, Ghost(counts))
}

proof fn lemma_cells_differ()
    ensures
        one_cell() != zero_cell(),
{
    assert(one_cell()[0] != zero_cell()[0]);
}

proof fn lemma_column_matches(vocab: Seq<Seq<char>>, sents: Seq<Sentence>, i: int, good: bool)
    requires
        0 <= i < vocab.len(),
    ensures
        column_count(rows_spec(vocab, sents), i, good) == count_with(sents, vocab[i], good),
    decreases sents.len(),
{
    if sents.len() > 0 {
        lemma_cells_differ();
        lemma_column_matches(vocab, sents.drop_last(), i, good);
        assert(rows_spec(vocab, sents).drop_last() =~= rows_spec(vocab, sents.drop_last()));
        let row = row_spec(vocab, sents.last());
        assert(rows_spec(vocab, sents).last() == row);
        assert(row[i] == (if sents.last().words_view().contains(vocab[i]) {
            one_cell()
        } else {
            zero_cell()
        }));
        assert(row.last() == label_cell(sents.last().good));
    }
}

proof fn lemma_labels_match(vocab: Seq<Seq<char>>, sents: Seq<Sentence>, good: bool)
    ensures
        rows_labeled(rows_spec(vocab, sents), good) == count_labeled(sents, good),
    decreases sents.len(),
{
    if sents.len() > 0 {
        lemma_cells_differ();
        lemma_labels_match(vocab, sents.drop_last(), good);
        assert(rows_spec(vocab, sents).drop_last() =~= rows_spec(vocab, sents.drop_last()));
        let row = row_spec(vocab, sents.last());
        assert(rows_spec(vocab, sents).last() == row);
        assert(row.last() == label_cell(sents.last().good));
    }
}

/// Storing a corpus as a table over its vocabulary and counting from that table
/// gives the same model as counting the corpus directly: the same counters for
/// every word, the same totals, the same vocabulary size.
pub proof fn lemma_table_round_trip(vocab: Seq<Seq<char>>, sents: Seq<Sentence>)
    requires
        strictly_sorted(vocab),
    ensures
        table_well_formed(vocab.push(label_column_name()), rows_spec(vocab, sents)),
        table_counts(vocab.push(label_column_name()), rows_spec(vocab, sents)) == corpus_counts(
            vocab,
            sents,
        ),
        rows_labeled(rows_spec(vocab, sents), true) == count_labeled(sents, true),
        rows_labeled(rows_spec(vocab, sents), false) == count_labeled(sents, false),
        vocab.push(label_column_name()).len() - 1 == vocab.len(),
{
    let header = vocab.push(label_column_name());
    let rows = rows_spec(vocab, sents);
    assert(header.drop_last() =~= vocab);
    assert forall|a: int, b: int| 0 <= a < vocab.len() && 0 <= b < vocab.len() && a != b implies vocab[a]
        != vocab[b] by {
        lemma_lex_irreflexive(vocab[a]);
        if a < b {
            assert(lex_lt(vocab[a], vocab[b]));
        } else {
            assert(lex_lt(vocab[b], vocab[a]));
        }
    }
    assert(vocab.no_duplicates());
    lemma_labels_match(vocab, sents, true);
    lemma_labels_match(vocab, sents, false);
    let direct = corpus_counts(vocab, sents);
    let stored = table_counts(header, rows);
    assert forall|w: Seq<char>| #[trigger] stored.contains_key(w) == direct.contains_key(w) && (
    stored.contains_key(w) ==> stored[w] == direct[w]) by {
        lemma_counts_partition(sents, w);
        if vocab.contains(w) {
            let i = choose|i: int| 0 <= i < vocab.len() && vocab[i] == w;
            assert(header[i] == w);
            lemma_column_matches(vocab, sents, i, true);
            lemma_column_matches(vocab, sents, i, false);
            let j = column_of(header, w);
            assert(0 <= j < header.len() - 1 && header[j] == w);
            assert(header[j] == vocab[j]);
            assert(j == i);
        }
        if stored.contains_key(w) {
            let i = choose|i: int|
                0 <= i < header.len() - 1 && #[trigger] header[i] == w && column_count(rows, i, true)
                    + column_count(rows, i, false) > 0;
            assert(header[i] == vocab[i]);
            assert(vocab.contains(w));
        }
    }
    assert(stored =~= direct);
}

/// The separator between the cells of a stored line: a comma and a space.
pub open spec fn separator() -> Seq<char> {
    seq![',', ' ']
}

/// The cells of a line, with the separator between each two.
pub open spec fn join_cells(cells: Seq<Seq<char>>) -> Seq<char>
    decreases cells.len(),
{
    if cells.len() == 0 {
        seq![]
    } else if cells.len() == 1 {
        cells[0]
    } else {
        join_cells(cells.drop_last()) + separator() + cells.last()
    }
}

/// Whether the separator occurs in `s`.
pub open spec fn holds_separator(s: Seq<char>) -> bool {
    exists|j: int| 0 <= j < s.len() - 1 && #[trigger] s[j] == ',' && s[j + 1] == ' '
}

/// The stored line of `cells`: the cells with a comma and a space between each two.
pub fn format_line(cells: &Vec<String>) -> (r: String)
    ensures
        r@ == join_cells(views(cells@)),
{
    let mut out: Vec<char> = Vec::new();
    let mut i: usize = 0;
    while i < cells.len()
        invariant
            i <= cells.len(),
            out@ == join_cells(views(cells@).take(i as int)),
        decreases cells.len() - i,
    {
        let ghost before = views(cells@).take(i as int);
        assert(views(cells@).take(i + 1).drop_last() =~= before);
        if i > 0 {
            out.push(',');
            out.push(' ');
        }
        let cs = chars_of(cells[i].as_str());
        let ghost mid = out@;
        let mut j: usize = 0;
        while j < cs.len()
            invariant
                j <= cs.len(),
                out@ == mid + cs@.take(j as int),
            decreases cs.len() - j,
        {
            out.push(cs[j]);
            assert(cs@.take(j + 1) =~= cs@.take(j as int).push(cs@[j as int]));
            assert(out@ =~= mid + cs@.take(j + 1));
            j = j + 1;
        }
        assert(cs@.take(cs.len() as int) =~= cs@);
        if i == 0 {
            assert(out@ =~= join_cells(views(cells@).take(1)));
        } else {
            assert(out@ =~= join_cells(before) + separator() + cells@[i as int]@);
        }
        i = i + 1;
    }
    assert(views(cells@).take(cells.len() as int) =~= views(cells@));
    string_of(&out)
}

/// The lines of a stored table: the header, then one line per row.
pub fn format_table(header: &Vec<String>, rows: &Vec<Vec<String>>) -> (r: Vec<String>)
    ensures
        r.len() == rows.len() + 1,
        r@[0]@ == join_cells(views(header@)),
        forall|k: int| 0 <= k < rows.len() ==> (#[trigger] r@[k + 1])@ == join_cells(views(rows@[k]@)),
{
    let mut r: Vec<String> = Vec::new();
    r.push(format_line(header));
    let mut k: usize = 0;
    while k < rows.len()
        invariant
            k <= rows.len(),
            r.len() == k + 1,
            r@[0]@ == join_cells(views(header@)),
            forall|j: int| 0 <= j < k ==> (#[trigger] r@[j + 1])@ == join_cells(views(rows@[j]@)),
        decreases rows.len() - k,
    {
        r.push(format_line(&rows[k]));
        k = k + 1;
    }
    r
}

/// Splits a stored line into its cells, at each comma followed by a space.
pub fn split_line(line: &str) -> (r: Vec<String>)
    ensures
        r.len() >= 1,
        join_cells(views(r@)) == line@,
        forall|k: int| 0 <= k < r.len() ==> !holds_separator(#[trigger] r@[k]@),
        views(r@) == cells_of(line@),
{
    let cs = chars_of(line);
    let mut done: Vec<String> = Vec::new();
    let mut cur: Vec<char> = Vec::new();
    let mut i: usize = 0;
    while i < cs.len()
        invariant
            cs@ == line@,
            i <= cs.len(),
            join_cells(views(done@).push(cur@)) == cs@.take(i as int),
            !holds_separator(cur@),
            cur@.len() > 0 && i < cs.len() ==> !(cur@.last() == ',' && cs@[i as int] == ' '),
            forall|k: int| 0 <= k < done.len() ==> !holds_separator(#[trigger] done@[k]@),
        decreases cs.len() - i,
    {
        let ghost d0 = views(done@);
        let ghost c0 = cur@;
        if cs[i] == ',' && i + 1 < cs.len() && cs[i + 1] == ' ' {
            let w = string_of(&cur);
            done.push(w);
            cur = Vec::new();
            proof {
                assert(views(done@) =~= d0.push(c0));
                assert(views(done@).push(cur@).drop_last() =~= views(done@));
                assert(cs@.take(i + 2) =~= cs@.take(i as int) + separator());
                assert(join_cells(views(done@).push(cur@)) =~= join_cells(d0.push(c0)) + separator());
                assert(!holds_separator(cur@));
            }
            i = i + 2;
        } else {
            let c = cs[i];
            cur.push(c);
            proof {
                assert(d0.push(cur@).drop_last() =~= d0);
                assert(d0.push(c0).drop_last() =~= d0);
                if d0.len() == 0 {
                    assert(join_cells(d0.push(cur@)) == cur@);
                    assert(join_cells(d0.push(c0)) == c0);
                } else {
                    assert(join_cells(d0.push(cur@)) == join_cells(d0) + separator() + cur@);
                    assert(join_cells(d0.push(c0)) == join_cells(d0) + separator() + c0);
                }
                assert(join_cells(d0.push(cur@)) =~= join_cells(d0.push(c0)).push(c));
                assert(cs@.take(i + 1) =~= cs@.take(i as int).push(c));
                assert(!holds_separator(cur@)) by {
                    if holds_separator(cur@) {
                        let j = choose|j: int| 0 <= j < cur@.len() - 1 && #[trigger] cur@[j] == ',' && cur@[j + 1] == ' ';
                        if j < c0.len() - 1 {
                            assert(c0[j] == ',' && c0[j + 1] == ' ');
                        }
                    }
                }
            }
            i = i + 1;
        }
    }
    let ghost d0 = views(done@);
    let w = string_of(&cur);
    done.push(w);
    assert(views(done@) =~= d0.push(w@));
    assert(cs@.take(cs.len() as int) =~= cs@);
    proof {
        assert(splits_into(line@, views(done@)));
        lemma_split_unique(line@, views(done@), cells_of(line@));
    }
    done
}

/// `cells` is what a stored line splits into.
pub open spec fn splits_into(line: Seq<char>, cells: Seq<Seq<char>>) -> bool {
    &&& cells.len() >= 1
    &&& join_cells(cells) == line
    &&& forall|k: int| 0 <= k < cells.len() ==> !holds_separator(#[trigger] cells[k])
}

proof fn lemma_last_piece(s: Seq<char>, p: Seq<Seq<char>>)
    requires
        p.len() > 1,
        join_cells(p) == s,
    ensures
        s == join_cells(p.drop_last()) + separator() + p.last(),
        s.len() == join_cells(p.drop_last()).len() + 2 + p.last().len(),
{
}

/// A stored line splits into its cells in one way only.
pub proof fn lemma_split_unique(s: Seq<char>, p: Seq<Seq<char>>, q: Seq<Seq<char>>)
    requires
        splits_into(s, p),
        splits_into(s, q),
    ensures
        p == q,
    decreases p.len(),
{
    if p.len() == 1 && q.len() == 1 {
        assert(p =~= q);
    } else if p.len() == 1 || q.len() == 1 {
        let (one, many) = if p.len() == 1 {
            (p, q)
        } else {
            (q, p)
        };
        lemma_last_piece(s, many);
        let a = join_cells(many.drop_last()).len() as int;
        assert(s[a] == ',' && s[a + 1] == ' ');
        assert(one[0] == s);
        assert(holds_separator(one[0]));
        assert(!holds_separator(one[0]));
    } else {
        lemma_last_piece(s, p);
        lemma_last_piece(s, q);
        let pl = p.last();
        let ql = q.last();
        let n = s.len() as int;
        assert forall|i: int| 0 <= i < pl.len() implies pl[i] == s[n - pl.len() + i] by {}
        assert forall|i: int| 0 <= i < ql.len() implies ql[i] == s[n - ql.len() + i] by {}
        if pl.len() != ql.len() {
            let (short, long) = if pl.len() < ql.len() {
                (pl, ql)
            } else {
                (ql, pl)
            };
            let a = n - short.len() - 2;
            let b0 = n - long.len();
            assert(s[a] == ',' && s[a + 1] == ' ');
            assert(s[b0 - 1] == ' ');
            assert(a != b0 - 1);
            assert(long[a - b0] == ',' && long[a - b0 + 1] == ' ');
            assert(holds_separator(long));
            assert(long == p[p.len() - 1] || long == q[q.len() - 1]);
            assert(false);
        }
        assert(pl =~= ql);
        let jp = join_cells(p.drop_last());
        let jq = join_cells(q.drop_last());
        assert(jp =~= s.take(n - pl.len() - 2));
        assert(jq =~= s.take(n - ql.len() - 2));
        assert forall|k: int| 0 <= k < p.drop_last().len() implies !holds_separator(
            #[trigger] p.drop_last()[k],
        ) by {
            assert(p.drop_last()[k] == p[k]);
        }
        assert forall|k: int| 0 <= k < q.drop_last().len() implies !holds_separator(
            #[trigger] q.drop_last()[k],
        ) by {
            assert(q.drop_last()[k] == q[k]);
        }
        lemma_split_unique(jp, p.drop_last(), q.drop_last());
        assert(p =~= p.drop_last().push(pl));
        assert(q =~= q.drop_last().push(ql));
    }
}

/// The cells that a stored line splits into.
pub open spec fn cells_of(line: Seq<char>) -> Seq<Seq<char>> {
    choose|p: Seq<Seq<char>>| splits_into(line, p)
}

/// The header of stored lines: the cells of the first.
pub open spec fn header_of(lines: Seq<String>) -> Seq<Seq<char>> {
    cells_of(lines[0]@)
}

/// The rows of stored lines: the cells of each line after the first.
pub open spec fn rows_of(lines: Seq<String>) -> Seq<Seq<Seq<char>>> {
    lines.drop_first().map_values(|l: String| cells_of(l@))
}

/// Why stored lines are no table.
#[derive(Clone, Copy, Debug, PartialEq, Eq, Structural)]
pub enum TableError {
    /// There is no header line.
    NoHeader,
    /// The header names a word column twice.
    DuplicateWord,
    /// The row on this line (counting the header as line 0) is not as wide as the
    /// header.
    RowWidth(usize),
}

/// Whether the entries of `v` but the last are pairwise distinct.
fn distinct_but_last(v: &Vec<String>) -> (r: bool)
    requires
        v.len() >= 1,
    ensures
        r == views(v@).drop_last().no_duplicates(),
{
    let ghost d = views(v@).drop_last();
    let n = v.len() - 1;
    let mut i: usize = 0;
    while i < n
        invariant
            n == v.len() - 1,
            d == views(v@).drop_last(),
            i <= n,
            forall|a: int, b: int| 0 <= a < i && 0 <= b < n && a != b ==> d[a] != d[b],
        decreases n - i,
    {
        let mut j: usize = 0;
        while j < n
            invariant
                n == v.len() - 1,
                d == views(v@).drop_last(),
                i < n,
                j <= n,
                forall|a: int, b: int| 0 <= a < i && 0 <= b < n && a != b ==> d[a] != d[b],
                forall|b: int| 0 <= b < j && b != i ==> d[i as int] != d[b],
            decreases n - j,
        {
            if j != i && v[i] == v[j] {
                assert(d[i as int] == d[j as int]);
                return false;
            }
            j = j + 1;
        }
        i = i + 1;
    }
    true
}

/// Builds a model from the lines of a stored table: the header, then the rows.
/// It fails where there is no header, where the header names a word twice, or at
/// the first row that is not as wide as the header.
pub fn load_table(lines: &Vec<String>) -> (r: Result<TrainedModel, TableError>)
    ensures
        lines.len() == 0 <==> r == Err::<TrainedModel, TableError>(TableError::NoHeader),
        lines.len() > 0 ==> (r == Err::<TrainedModel, TableError>(TableError::DuplicateWord)
            <==> !header_of(lines@).drop_last().no_duplicates()),
        lines.len() > 0 ==> (r is Ok <==> table_well_formed(header_of(lines@), rows_of(lines@))),
        match r {
            Ok(m) => m.wf() && m@ == table_counts(header_of(lines@), rows_of(lines@))
                && m.vocab_size_spec() == header_of(lines@).len() - 1 && m.totals_spec() == (
                rows_labeled(rows_of(lines@), true),
                rows_labeled(rows_of(lines@), false),
            ),
            Err(TableError::RowWidth(k)) => 1 <= k < lines.len() && header_of(
                lines@,
            ).drop_last().no_duplicates() && rows_of(lines@)[k - 1].len() != header_of(lines@).len()
                && forall|j: int| 0 <= j < k - 1 ==> (#[trigger] rows_of(lines@)[j]).len() == header_of(
                lines@,
            ).len(),
            _ => true,
        },
{
    if lines.len() == 0 {
        return Err(TableError::NoHeader);
    }
    let header = split_line(lines[0].as_str());
    let ghost h = views(header@);
    let ghost all = rows_of(lines@);
    assert(h == header_of(lines@));
    assert(h.len() >= 1);
    if !distinct_but_last(&header) {
        return Err(TableError::DuplicateWord);
    }
    let mut data: Vec<Vec<String>> = Vec::new();
    let mut k: usize = 1;
    while k < lines.len()
        invariant
            1 <= k <= lines.len(),
            h == views(header@),
            h == header_of(lines@),
            h.len() >= 1,
            h.drop_last().no_duplicates(),
            all == rows_of(lines@),
            all.len() == lines.len() - 1,
            data.len() == k - 1,
            forall|j: int| 0 <= j < data.len() ==> (#[trigger] data@[j]).len() == header.len(),
            forall|j: int| 0 <= j < data.len() ==> #[trigger] rows_view(data@)[j] == all[j],
        decreases lines.len() - k,
    {
        let row = split_line(lines[k].as_str());
        assert(all[k - 1] == cells_of(lines@[k as int]@));
        if row.len() != header.len() {
            assert forall|j: int| 0 <= j < k - 1 implies (#[trigger] all[j]).len() == h.len() by {
                assert(rows_view(data@)[j] == views(data@[j]@));
            }
            assert(all[k - 1].len() != h.len());
            assert(!table_well_formed(h, all));
            return Err(TableError::RowWidth(k));
        }
        let ghost d0 = rows_view(data@);
        data.push(row);
        assert(rows_view(data@) =~= d0.push(views(row@)));
        k = k + 1;
    }
    let ghost rows = rows_view(data@);
    assert(rows =~= all);
    assert forall|j: int| 0 <= j < rows.len() implies (#[trigger] rows[j]).len() == h.len() by {
        assert(rows[j] == views(data@[j]@));
    }
    let m = format_preprocessed(header, data);
    Ok(m)
}

/// The stored form of a corpus: its rows over its vocabulary, and the header.
pub fn get_vocab(sents: &Vec<Sentence>) -> (r: (Vec<Vec<String>>, Vec<String>))
    ensures
        exists|v: Seq<Seq<char>>|
            is_vocabulary_of(v, sents@) && rows_view(r.0@) == rows_spec(v, sents@) && views(r.1@)
                == v.push(label_column_name()),
        forall|k: int| 0 <= k < r.0.len() ==> (#[trigger] r.0@[k]).len() == r.1.len(),
{
    let vocab = build_vocabulary(sents);
    let rows = encode_table(&vocab, sents);
    let header = table_header(&vocab);
    assert(is_vocabulary_of(views(vocab@), sents@));
    assert(views(header@).len() == vocab.len() + 1);
    (rows, header)
}

} // verus!
