use vstd::prelude::*;

verus! {

/// ASCII whitespace as `char::is_ascii_whitespace` defines it.
pub open spec fn is_ascii_space(c: char) -> bool {
    c == ' ' || c == '\t' || c == '\n' || c == '\x0C' || c == '\r'
}

/// The maximal runs of non-whitespace characters of `s`, left to right.
pub open spec fn chunks(s: Seq<char>) -> Seq<Seq<char>>
    decreases s.len(),
{
    if s.len() == 0 {
        seq![]
    } else {
        let before = chunks(s.drop_last());
        let c = s.last();
        if is_ascii_space(c) {
            before
        } else if s.len() > 1 && !is_ascii_space(s[s.len() - 2]) {
            before.drop_last().push(before.last().push(c))
        } else {
            before.push(seq![c])
        }
    }
}

/// Whether `char::is_alphanumeric` holds of `c`.
pub uninterp spec fn alphanumeric(c: char) -> bool;

/// What `str::to_lowercase` makes of `s`.
pub uninterp spec fn lowercase_of(s: Seq<char>) -> Seq<char>;

/// Relies on `char::is_alphanumeric`: whether `c` is a Unicode letter or number.
#[verifier::external_body]
fn is_alphanumeric(c: char) -> (r: bool)
    ensures
        r == alphanumeric(c),
{
    c.is_alphanumeric()
}

/// Relies on `str::to_lowercase`: the lowercase form of `s`, a function of `s` alone.
#[verifier::external_body]
fn to_lowercase(s: &str) -> (r: String)
    ensures
        r@ == lowercase_of(s@),
{
    s.to_lowercase()
}

/// Relies on `String: FromIterator<char>`: the string made of `v`'s characters in order.
#[verifier::external_body]
pub(crate) fn string_of(v: &Vec<char>) -> (r: String)
    ensures
        r@ == v@,
{
    v.iter().collect()
}

/// A token: the lowercase form of the alphanumeric characters of one chunk.
pub open spec fn normalize_word_spec(chunk: Seq<char>) -> Seq<char> {
    lowercase_of(chunk.filter(|c: char| alphanumeric(c)))
}

/// The tokens of a line, one per whitespace-delimited chunk (empty ones kept).
pub open spec fn normalize_line_spec(line: Seq<char>) -> Seq<Seq<char>> {
    chunks(line).map_values(|w: Seq<char>| normalize_word_spec(w))
}

/// A token as the data model defines it: alphanumeric only, and already lowercase.
pub open spec fn is_token(t: Seq<char>) -> bool {
    &&& forall|i: int| 0 <= i < t.len() ==> alphanumeric(#[trigger] t[i])
    &&& lowercase_of(t) == t
}

/// The views of a vector of strings.
pub open spec fn views(v: Seq<String>) -> Seq<Seq<char>> {
    v.map_values(|s: String| s@)
}

/// The characters of `s`, in order.
pub fn chars_of(s: &str) -> (r: Vec<char>)
    ensures
        r@ == s@,
{
    let mut r: Vec<char> = Vec::new();
    for c in it: s.chars()
        invariant
            it.seq() == s@,
            r@ == it.seq().take(it.index() as int),
    {
        r.push(c);
    }
    r
}

/// Whether `c` is ASCII whitespace.
pub fn is_ascii_space_char(c: char) -> (r: bool)
    ensures
        r == is_ascii_space(c),
{
    c == ' ' || c == '\t' || c == '\n' || c == '\x0C' || c == '\r'
}

/// Splits `line` on ASCII whitespace, dropping empty pieces.
pub fn split_ascii_whitespace(line: &str) -> (r: Vec<String>)
    ensures
        views(r@) == chunks(line@),
{
    let cs = chars_of(line);
    let mut done: Vec<String> = Vec::new();
    let mut cur: Vec<char> = Vec::new();
    let mut i: usize = 0;
    while i < cs.len()
        invariant
            cs@ == line@,
            i <= cs.len(),
            i > 0 && !is_ascii_space(cs@[i - 1]) ==> cur@.len() > 0 && chunks(cs@.take(i as int))
                == views(done@).push(cur@),
            !(i > 0 && !is_ascii_space(cs@[i - 1])) ==> cur@.len() == 0 && chunks(
                cs@.take(i as int),
            ) == views(done@),
        decreases cs.len() - i,
    {
        let c = cs[i];
        let ghost pre = cs@.take(i as int);
        let ghost done0 = done@;
        assert(cs@.take(i + 1).drop_last() == pre);
        assert(cs@.take(i + 1).last() == c);
        if is_ascii_space_char(c) {
            if cur.len() > 0 {
                let w = string_of(&cur);
                done.push(w);
                cur = Vec::new();
                assert(views(done@) =~= views(done0).push(w@));
            }
        } else {
            let ghost cur0 = cur@;
            if cur.len() > 0 {
                assert(views(done@).push(cur@).drop_last() =~= views(done@));
            }
            cur.push(c);
            assert(cur0.len() == 0 ==> cur@ =~= seq![c]);
            assert(chunks(cs@.take(i + 1)) =~= views(done@).push(cur@));
        }
        i = i + 1;
    }
    assert(cs@.take(cs.len() as int) == cs@);
    if cur.len() > 0 {
        let ghost done0 = done@;
        let w = string_of(&cur);
        done.push(w);
        assert(views(done@) =~= views(done0).push(w@));
    }
    done
}

/// The token made from one chunk: its alphanumeric characters, lowercased.
pub fn normalize_word(chunk: &str) -> (r: String)
    ensures
        r@ == normalize_word_spec(chunk@),
{
    let cs = chars_of(chunk);
    let mut kept: Vec<char> = Vec::new();
    let mut i: usize = 0;
    while i < cs.len()
        invariant
            cs@ == chunk@,
            i <= cs.len(),
            kept@ == cs@.take(i as int).filter(|c: char| alphanumeric(c)),
        decreases cs.len() - i,
    {
        let c = cs[i];
        assert(cs@.take(i + 1).drop_last() == cs@.take(i as int));
        proof {
            reveal(Seq::filter);
        }
        if is_alphanumeric(c) {
            kept.push(c);
        }
        i = i + 1;
    }
    assert(cs@.take(cs.len() as int) == cs@);
    let joined = string_of(&kept);
    to_lowercase(joined.as_str())
}

/// The tokens of `line`, one per whitespace-delimited chunk.
pub fn normalize_line(line: &str) -> (r: Vec<String>)
    ensures
        views(r@) == normalize_line_spec(line@),
{
    let parts = split_ascii_whitespace(line);
    let mut r: Vec<String> = Vec::new();
    let mut i: usize = 0;
    while i < parts.len()
        invariant
            views(parts@) == chunks(line@),
            i <= parts.len(),
            views(r@) == views(parts@).take(i as int).map_values(
                |w: Seq<char>| normalize_word_spec(w),
            ),
        decreases parts.len() - i,
    {
        let t = normalize_word(parts[i].as_str());
        let ghost r0 = r@;
        r.push(t);
        assert(views(r@) =~= views(r0).push(t@));
        assert(views(parts@).take(i + 1).map_values(|w: Seq<char>| normalize_word_spec(w))
            =~= views(parts@).take(i as int).map_values(|w: Seq<char>| normalize_word_spec(w)).push(
            normalize_word_spec(parts@[i as int]@),
        ));
        i = i + 1;
    }
    assert(views(parts@).take(parts.len() as int) == views(parts@));
    r
}

/// Normalizing tokens that are already tokens gives them back unchanged.
pub proof fn lemma_normalize_idempotent(tokens: Seq<Seq<char>>)
    requires
        forall|i: int| 0 <= i < tokens.len() ==> is_token(#[trigger] tokens[i]),
    ensures
        tokens.map_values(|w: Seq<char>| normalize_word_spec(w)) == tokens,
{
    assert forall|i: int| 0 <= i < tokens.len() implies normalize_word_spec(
        #[trigger] tokens[i],
    ) == tokens[i] by {
        let t = tokens[i];
        assert(is_token(t));
        lemma_filter_keeps_all(t);
    }
    assert(tokens.map_values(|w: Seq<char>| normalize_word_spec(w)) =~= tokens);
}

proof fn lemma_filter_keeps_all(t: Seq<char>)
    requires
        forall|i: int| 0 <= i < t.len() ==> alphanumeric(#[trigger] t[i]),
    ensures
        t.filter(|c: char| alphanumeric(c)) == t,
    decreases t.len(),
{
    reveal(Seq::filter);
    if t.len() > 0 {
        lemma_filter_keeps_all(t.drop_last());
        assert(t.drop_last().push(t.last()) =~= t);
    } else {
        assert(t.filter(|c: char| alphanumeric(c)) =~= t);
    }
}

/// Whether `c` is an ASCII decimal digit.
pub open spec fn is_digit(c: char) -> bool {
    '0' <= c && c <= '9'
}

/// The number that the decimal digits `s` write.
pub open spec fn decimal_value(s: Seq<char>) -> nat
    decreases s.len(),
{
    if s.len() == 0 {
        0
    } else {
        decimal_value(s.drop_last()) * 10 + (s.last() as nat - '0' as nat) as nat
    }
}

/// The label that a label field states: `Some(true)` for Good (the number 1),
/// `Some(false)` for Bad (any other number), `None` where it is no number that fits
/// a `usize`.
pub open spec fn label_spec(t: Seq<char>) -> Option<bool> {
    if t.len() > 0 && (forall|i: int| 0 <= i < t.len() ==> is_digit(#[trigger] t[i]))
        && decimal_value(t) <= usize::MAX {
        Some(decimal_value(t) == 1)
    } else {
        None
    }
}

/// Reads a label field: whether it is the number 1, or `None` where it is no number.
pub fn parse_label(field: &str) -> (r: Option<bool>)
    ensures
        r == label_spec(field@),
{
    let cs = chars_of(field);
    if cs.len() == 0 {
        return None;
    }
    let mut acc: usize = 0;
    let mut big = false;
    let mut i: usize = 0;
    while i < cs.len()
        invariant
            cs@ == field@,
            i <= cs.len(),
            forall|k: int| 0 <= k < i ==> is_digit(#[trigger] cs@[k]),
            big ==> decimal_value(cs@.take(i as int)) > usize::MAX,
            !big ==> acc == decimal_value(cs@.take(i as int)),
        decreases cs.len() - i,
    {
        let c = cs[i];
        if !('0' <= c && c <= '9') {
            return None;
        }
        assert(cs@.take(i + 1).drop_last() == cs@.take(i as int));
        let d = (c as u32 - '0' as u32) as usize;
        if !big {
            match acc.checked_mul(10) {
                Some(a) => match a.checked_add(d) {
                    Some(b) => {
                        acc = b;
                    },
                    None => {
                        big = true;
                    },
                },
                None => {
                    big = true;
                },
            }
        }
        i = i + 1;
    }
    assert(cs@.take(cs.len() as int) == cs@);
    if big {
        None
    } else {
        Some(acc == 1)
    }
}

/// Why a line is no labeled sentence.
#[derive(Clone, Copy, Debug, PartialEq, Eq, Structural)]
pub enum LineError {
    /// The line holds no field at all.
    NoFields,
    /// The last field is no label.
    BadLabel,
}

/// A labeled sentence: its tokens, and whether it is labeled Good.
#[derive(Clone, Debug)]
pub struct Sentence {
    pub words: Vec<String>,
    pub good: bool,
}

impl Sentence {
    /// The tokens, as character sequences.
    pub open spec fn words_view(&self) -> Seq<Seq<char>> {
        views(self.words@)
    }
}

/// What a line of a labeled file reads as: its tokens but the last, and the label
/// that the last one states.
pub open spec fn parse_sentence_spec(line: Seq<char>) -> Result<(Seq<Seq<char>>, bool), LineError> {
    let toks = normalize_line_spec(line);
    if toks.len() == 0 {
        Err(LineError::NoFields)
    } else if label_spec(toks.last()) is None {
        Err(LineError::BadLabel)
    } else {
        Ok((toks.drop_last(), label_spec(toks.last())->0))
    }
}

/// Reads one line of a labeled file.
pub fn parse_sentence(line: &str) -> (r: Result<Sentence, LineError>)
    ensures
        match r {
            Ok(s) => parse_sentence_spec(line@) == Ok::<(Seq<Seq<char>>, bool), LineError>(
                (s.words_view(), s.good),
            ),
            Err(e) => parse_sentence_spec(line@) == Err::<(Seq<Seq<char>>, bool), LineError>(e),
        },
{
    let mut toks = normalize_line(line);
    let ghost all = views(toks@);
    match toks.pop() {
        None => Err(LineError::NoFields),
        Some(last) => {
            assert(views(toks@) =~= all.drop_last());
            match parse_label(last.as_str()) {
                None => Err(LineError::BadLabel),
                Some(good) => Ok(Sentence { words: toks, good }),
            }
        },
    }
}

} // verus!
