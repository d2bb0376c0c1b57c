//! Text normalisation: raw strings become sequences of lowercase, stemmed terms.

use regex::Regex;
use rust_stemmers::{Algorithm, Stemmer};
use vstd::prelude::*;

verus! {

/// The compiled regular expression of the `regex` crate, carried opaquely.
#[verifier::external_type_specification]
#[verifier::external_body]
pub struct ExRegex(regex::Regex);

/// The error of the `regex` crate for a pattern that does not compile.
#[verifier::external_type_specification]
#[verifier::external_body]
pub struct ExRegexError(regex::Error);

/// The pattern string a compiled expression was made from, as
/// `regex::Regex::as_str` reports it.
pub uninterp spec fn regex_source(re: Regex) -> Seq<char>;

/// Whether `regex::Regex::new` accepts `pattern`: whether the pattern is
/// valid and compiles within the size limit of the crate's default options.
pub uninterp spec fn regex_compiles(pattern: Seq<char>) -> bool;

/// Whether a compiled expression carries the options that
/// `regex::Regex::new` compiles with: the defaults of the crate, among them
/// Unicode classes and greedy repetition. An expression from a builder with
/// other options may keep the same pattern string and match differently.
pub uninterp spec fn default_options(re: Regex) -> bool;

/// Whether `c` is a word character for the `regex` crate: whether the
/// class `\w`, as `regex::Regex::new` compiles it, holds `c`.
pub uninterp spec fn is_word_char(c: char) -> bool;

/// The lowercase form of a word: what `str::to_lowercase` returns, the
/// lowercase mapping of Unicode applied to the whole word.
pub uninterp spec fn lowercased(word: Seq<char>) -> Seq<char>;

/// The stem that the Snowball English algorithm of `rust_stemmers` gives a word.
pub uninterp spec fn english_stem(word: Seq<char>) -> Seq<char>;

/// `regex::Regex::new`: it succeeds exactly on the patterns that compile,
/// and the expression then carries the default options and remembers the
/// pattern it was made from.
pub assume_specification[ regex::Regex::new ](re: &str) -> (r: Result<Regex, regex::Error>)
    ensures
        r is Ok <==> regex_compiles(re@),
        r matches Ok(compiled) ==> default_options(compiled) && regex_source(compiled) == re@,
;

/// `regex::Regex::find_iter`, each match copied out with `Match::as_str`.
/// The claim is made only of the word pattern compiled with the default
/// options: one or more word characters are then matched greedily, and the
/// successive non-overlapping matches are the maximal runs of word
/// characters of the text, in order. Nothing is claimed of another pattern
/// or of other options.
#[verifier::external_body]
fn find_all(re: &Regex, text: &str) -> (found: Vec<String>)
    ensures
        default_options(*re) && regex_source(*re) == word_pattern() ==> found.deep_view()
            == runs_of(text@, |c: char| is_word_char(c)),
{
    re.find_iter(text).map(|m| m.as_str().to_string()).collect()
}

/// `rust_stemmers::Stemmer::stem` of the stemmer created for
/// `Algorithm::English`: the result is the algorithm's stem of `word`.
#[verifier::external_body]
fn stem_english(word: &str) -> (stem: String)
    ensures
        stem@ == english_stem(word@),
{
    Stemmer::create(Algorithm::English).stem(word).into_owned()
}

/// `str::to_lowercase`: the result is the lowercase form of `word`, which
/// depends on the word alone.
#[verifier::external_body]
fn lowercase(word: &str) -> (lower: String)
    ensures
        lower@ == lowercased(word@),
{
    word.to_lowercase()
}

/// The pattern that delimits tokens: one or more word characters.
pub open spec fn word_pattern() -> Seq<char> {
    "\\w+"@
}

/// The maximal runs of members of a character class in a text, in order.
/// Read from the front, a member either continues the run that the
/// character before it belongs to or starts a new run; any other character
/// belongs to no run.
pub open spec fn runs_of(text: Seq<char>, member: spec_fn(char) -> bool) -> Seq<Seq<char>>
    decreases text.len(),
{
    if text.len() == 0 {
        Seq::empty()
    } else {
        let before = runs_of(text.drop_last(), member);
        let c = text.last();
        if !member(c) {
            before
        } else if text.len() >= 2 && member(text[text.len() - 2]) {
            before.drop_last().push(before.last().push(c))
        } else {
            before.push(seq![c])
        }
    }
}

/// The tokens of a text: its maximal runs of word characters, in order.
pub open spec fn word_runs(text: Seq<char>) -> Seq<Seq<char>> {
    runs_of(text, |c: char| is_word_char(c))
}

/// The term a raw token becomes: lowercased, then stemmed.
pub open spec fn term_of(token: Seq<char>) -> Seq<char> {
    english_stem(lowercased(token))
}

/// The terms of a sequence of raw tokens.
pub open spec fn terms_of(tokens: Seq<Seq<char>>) -> Seq<Seq<char>> {
    tokens.map_values(|token: Seq<char>| term_of(token))
}

/// The term sequence of a text: its word tokens in order, each lowercased
/// and stemmed.
pub open spec fn normalized(text: Seq<char>) -> Seq<Seq<char>> {
    terms_of(word_runs(text))
}

/// The term sequences of a batch of texts, one per text, in order.
pub open spec fn corpus_terms(texts: Seq<Seq<char>>) -> Seq<Seq<Seq<char>>> {
    texts.map_values(|text: Seq<char>| normalized(text))
}

/// Every run holds at least one character and only members of the class,
/// and a text that ends in a member ends its last run with it.
pub proof fn lemma_runs_shape(text: Seq<char>, member: spec_fn(char) -> bool)
    ensures
        forall|i: int| 0 <= i < runs_of(text, member).len() ==> (#[trigger] runs_of(text, member)[i]).len() >= 1,
        forall|i: int, k: int|
            0 <= i < runs_of(text, member).len() && 0 <= k < runs_of(text, member)[i].len() ==> member(
                #[trigger] runs_of(text, member)[i][k],
            ),
        text.len() > 0 && member(text.last()) ==> runs_of(text, member).len() > 0 && runs_of(
            text,
            member,
        ).last().last() == text.last(),
    decreases text.len(),
{
    if text.len() > 0 {
        let shorter = text.drop_last();
        lemma_runs_shape(shorter, member);
        let before = runs_of(shorter, member);
        let runs = runs_of(text, member);
        let c = text.last();
        if member(c) {
            if text.len() >= 2 && member(text[text.len() - 2]) {
                assert(shorter.last() == text[text.len() - 2]);
                let grown = before.last().push(c);
                assert(runs == before.drop_last().push(grown));
                assert forall|i: int| 0 <= i < runs.len() implies (#[trigger] runs[i]).len() >= 1 by {
                    if i < runs.len() - 1 {
                        assert(runs[i] == before[i]);
                    }
                }
                assert forall|i: int, k: int|
                    0 <= i < runs.len() && 0 <= k < runs[i].len() implies member(
                    #[trigger] runs[i][k],
                ) by {
                    if i < runs.len() - 1 {
                        assert(runs[i] == before[i]);
                    } else if k < grown.len() - 1 {
                        assert(grown[k] == before[before.len() - 1][k]);
                    }
                }
            } else {
                assert(runs == before.push(seq![c]));
                assert forall|i: int| 0 <= i < runs.len() implies (#[trigger] runs[i]).len() >= 1 by {
                    if i < runs.len() - 1 {
                        assert(runs[i] == before[i]);
                    }
                }
                assert forall|i: int, k: int|
                    0 <= i < runs.len() && 0 <= k < runs[i].len() implies member(
                    #[trigger] runs[i][k],
                ) by {
                    if i < runs.len() - 1 {
                        assert(runs[i] == before[i]);
                    }
                }
            }
        }
    }
}

/// A text that holds no member of the class, the empty text among them,
/// has no run.
pub proof fn lemma_no_member_no_runs(text: Seq<char>, member: spec_fn(char) -> bool)
    requires
        forall|k: int| 0 <= k < text.len() ==> !member(#[trigger] text[k]),
    ensures
        runs_of(text, member).len() == 0,
    decreases text.len(),
{
    if text.len() > 0 {
        let shorter = text.drop_last();
        assert forall|k: int| 0 <= k < shorter.len() implies !member(#[trigger] shorter[k]) by {
            assert(shorter[k] == text[k]);
        }
        lemma_no_member_no_runs(shorter, member);
        assert(!member(text[text.len() - 1]));
    }
}

/// A character outside the class separates: the runs of a text are those
/// of the part before the separator followed by those of the part behind.
pub proof fn lemma_separator_splits_runs(
    front: Seq<char>,
    separator: char,
    back: Seq<char>,
    member: spec_fn(char) -> bool,
)
    requires
        !member(separator),
    ensures
        runs_of(front.push(separator) + back, member) == runs_of(front, member) + runs_of(
            back,
            member,
        ),
    decreases back.len(),
{
    let text = front.push(separator) + back;
    let left = runs_of(front, member);
    if back.len() == 0 {
        assert(text =~= front.push(separator));
        assert(text.drop_last() =~= front);
        assert(left + runs_of(back, member) =~= left);
    } else {
        let shorter = back.drop_last();
        let c = back.last();
        lemma_separator_splits_runs(front, separator, shorter, member);
        lemma_runs_shape(shorter, member);
        assert(text.drop_last() =~= front.push(separator) + shorter);
        assert(text.last() == c);
        let right = runs_of(shorter, member);
        let before = runs_of(text.drop_last(), member);
        assert(before == left + right);
        if member(c) {
            if back.len() >= 2 {
                assert(text[text.len() - 2] == back[back.len() - 2]);
                assert(shorter.last() == back[back.len() - 2]);
                if member(back[back.len() - 2]) {
                    assert(before.last() == right.last());
                    assert(before.drop_last() =~= left + right.drop_last());
                    assert(before.drop_last().push(before.last().push(c)) =~= left
                        + right.drop_last().push(right.last().push(c)));
                } else {
                    assert(before.push(seq![c]) =~= left + right.push(seq![c]));
                }
            } else {
                assert(text[text.len() - 2] == separator);
                assert(before.push(seq![c]) =~= left + right.push(seq![c]));
            }
        }
    }
}

/// A text without a word character, the empty text among them, has no
/// terms.
pub proof fn lemma_text_without_words_has_no_terms(text: Seq<char>)
    requires
        forall|k: int| 0 <= k < text.len() ==> !is_word_char(#[trigger] text[k]),
    ensures
        normalized(text).len() == 0,
{
    lemma_no_member_no_runs(text, |c: char| is_word_char(c));
}

/// A character that is no word character splits a text: the terms of the
/// whole are the terms of what stands before it, then the terms of what
/// stands behind it.
pub proof fn lemma_separator_splits_terms(front: Seq<char>, separator: char, back: Seq<char>)
    requires
        !is_word_char(separator),
    ensures
        normalized(front.push(separator) + back) == normalized(front) + normalized(back),
{
    lemma_separator_splits_runs(front, separator, back, |c: char| is_word_char(c));
    assert(terms_of(word_runs(front) + word_runs(back)) =~= terms_of(word_runs(front)) + terms_of(
        word_runs(back),
    ));
}

/// Turns raw text into term sequences. Built once, shared by reference.
pub struct Normalizer {
    word_re: Regex,
}

impl Normalizer {
    #[verifier::type_invariant]
    spec fn inv(self) -> bool {
        default_options(self.word_re) && regex_source(self.word_re) == word_pattern()
    }

    /// Compiles the tokenizer from the word pattern. A normalizer is
    /// returned exactly when the expression compiler accepts that pattern.
    pub fn new() -> (r: Option<Normalizer>)
        ensures
            r is Some <==> regex_compiles(word_pattern()),
            r matches Some(normalizer) ==> normalizer.pattern() == word_pattern(),
    {
        match Regex::new("\\w+") {
            Ok(word_re) => Some(Normalizer { word_re }),
            Err(_) => None,
        }
    }

    /// The pattern that the tokenizer of this normalizer was compiled from.
    pub closed spec fn pattern(&self) -> Seq<char> {
        regex_source(self.word_re)
    }

    /// Splits `text` into word tokens, lowercases and stems each one.
    /// The result depends on the text alone.
    pub fn tokenize_and_stem(&self, text: &str) -> (terms: Vec<String>)
        ensures
            terms.deep_view() == normalized(text@),
            self.pattern() == word_pattern(),
    {
        proof {
            use_type_invariant(self);
        }
        let tokens = find_all(&self.word_re, text);
        stem_tokens(&tokens)
    }

    /// Normalizes every text of a batch, each on its own: the result for
    /// one text does not depend on the others.
    pub fn normalize_all(&self, texts: &Vec<String>) -> (docs: Vec<Vec<String>>)
        ensures
            docs.deep_view() == corpus_terms(texts.deep_view()),
    {
        let mut docs: Vec<Vec<String>> = Vec::new();
        let mut i: usize = 0;
        while i < texts.len()
            invariant
                i <= texts.len(),
                docs.len() == i,
                forall|k: int| 0 <= k < i ==> (#[trigger] docs[k]).deep_view() == normalized(texts[k]@),
            decreases texts.len() - i,
        {
            let terms = self.tokenize_and_stem(texts[i].as_str());
            docs.push(terms);
            i += 1;
        }
        assert(docs.deep_view() =~= corpus_terms(texts.deep_view()));
        docs
    }
}

/// Lowercases and stems every token, keeping order and number.
pub fn stem_tokens(tokens: &Vec<String>) -> (terms: Vec<String>)
    ensures
        terms.deep_view() == terms_of(tokens.deep_view()),
{
    let mut terms: Vec<String> = Vec::new();
    let mut i: usize = 0;
    while i < tokens.len()
        invariant
            i <= tokens.len(),
            terms.len() == i,
            forall|k: int| 0 <= k < i ==> terms[k]@ == term_of(#[trigger] tokens[k]@),
        decreases tokens.len() - i,
    {
        let lower = lowercase(tokens[i].as_str());
        let stem = stem_english(lower.as_str());
        terms.push(stem);
        i += 1;
    }
    assert(terms.deep_view() =~= terms_of(tokens.deep_view()));
    terms
}

} // verus!
