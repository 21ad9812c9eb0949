//! From text to index terms: split, lowercase, drop stopwords, stem.
use crate::text::same_text;
use vstd::prelude::*;

verus! {

/// Whether `char::is_alphanumeric` holds of the character.
pub uninterp spec fn alphanumeric(c: char) -> bool;

/// What `str::to_lowercase` makes of the text.
pub uninterp spec fn lowercased(text: Seq<char>) -> Seq<char>;

/// The stem that the English Snowball stemmer gives the word.
pub uninterp spec fn english_stem(word: Seq<char>) -> Seq<char>;

/// `char::is_alphanumeric`.
///
/// Trusted: the result is named, nothing more is said of it.
#[verifier::external_body]
fn is_alphanumeric(c: char) -> (yes: bool)
    ensures
        yes == alphanumeric(c),
{
    c.is_alphanumeric()
}

/// `str::to_lowercase`.
///
/// Trusted: the result is named, nothing more is said of it.
#[verifier::external_body]
fn to_lowercase(text: &str) -> (lower: String)
    ensures
        lower@ == lowercased(text@),
{
    text.to_lowercase()
}

/// `String::push`.
///
/// Trusted: the character is appended at the end.
#[verifier::external_body]
fn push_char(text: &mut String, c: char)
    ensures
        final(text)@ == old(text)@.push(c),
{
    text.push(c)
}

/// `rust_stemmers::Stemmer::stem` of a stemmer that was created for
/// `Algorithm::English`.
///
/// Trusted: the result is named, nothing more is said of it.
#[verifier::external_body]
fn stem_english(word: &str) -> (stem: String)
    ensures
        stem@ == english_stem(word@),
{
    rust_stemmers::Stemmer::create(rust_stemmers::Algorithm::English).stem(word).into_owned()
}

/// The English stopwords.
pub open spec fn english_stopwords() -> Seq<Seq<char>> {
    seq!["a"@, "and"@, "be"@, "have"@, "i"@, "in"@, "of"@, "that"@, "the"@, "to"@]
}

/// Whether the word is an English stopword.
pub open spec fn is_stopword(word: Seq<char>) -> bool {
    english_stopwords().contains(word)
}

/// The index term of one segment of text: its lowercase form, stemmed;
/// none where that form is empty or a stopword.
pub open spec fn term_of(segment: Seq<char>) -> Option<Seq<char>> {
    let lower = lowercased(segment);
    if lower.len() == 0 || is_stopword(lower) {
        None
    } else {
        Some(english_stem(lower))
    }
}

/// The segments into which the characters that are not alphanumeric split
/// the text. Two such characters in a row have an empty segment between
/// them, and a text without any is one segment.
pub open spec fn segments(text: Seq<char>) -> Seq<Seq<char>>
    decreases text.len(),
{
    if text.len() == 0 {
        seq![Seq::empty()]
    } else {
        let before = segments(text.drop_last());
        if alphanumeric(text.last()) {
            before.drop_last().push(before.last().push(text.last()))
        } else {
            before.push(Seq::empty())
        }
    }
}

/// The terms of the segments that have one, in order.
pub open spec fn terms_of(parts: Seq<Seq<char>>) -> Seq<Seq<char>>
    decreases parts.len(),
{
    if parts.len() == 0 {
        Seq::empty()
    } else {
        let before = terms_of(parts.drop_last());
        match term_of(parts.last()) {
            Some(term) => before.push(term),
            None => before,
        }
    }
}

/// The index terms of a text, in the order in which they stand in it.
pub open spec fn analyzed(text: Seq<char>) -> Seq<Seq<char>> {
    terms_of(segments(text))
}

/// The terms with one space between each two of them.
pub open spec fn spaced(terms: Seq<Seq<char>>) -> Seq<char>
    decreases terms.len(),
{
    if terms.len() == 0 {
        Seq::empty()
    } else if terms.len() == 1 {
        terms[0]
    } else {
        spaced(terms.drop_last()) + seq![' '] + terms.last()
    }
}

/// Whether analysis gives the word back: it is made of alphanumeric
/// characters, and its lowercase form is no stopword and has the word
/// itself as its stem.
pub open spec fn is_settled(word: Seq<char>) -> bool {
    &&& forall|j: int| 0 <= j < word.len() ==> alphanumeric(#[trigger] word[j])
    &&& term_of(word) == Some(word)
}

/// A text has at least one segment.
pub proof fn lemma_segments_exist(text: Seq<char>)
    ensures
        segments(text).len() >= 1,
    decreases text.len(),
{
    if text.len() > 0 {
        lemma_segments_exist(text.drop_last());
    }
}

/// Alphanumeric characters behind a text lengthen its last segment.
pub proof fn lemma_segments_grow(text: Seq<char>, word: Seq<char>)
    requires
        forall|j: int| 0 <= j < word.len() ==> alphanumeric(#[trigger] word[j]),
    ensures
        segments(text).len() >= 1,
        segments(text + word) == segments(text).drop_last().push(segments(text).last() + word),
    decreases word.len(),
{
    lemma_segments_exist(text);
    let parts = segments(text);
    if word.len() == 0 {
        assert(text + word =~= text);
        assert(parts.last() + word =~= parts.last());
        assert(parts.drop_last().push(parts.last()) =~= parts);
    } else {
        let front = word.drop_last();
        lemma_segments_grow(text, front);
        assert((text + word).drop_last() =~= text + front);
        assert((text + word).last() == word.last());
        assert(alphanumeric(word[word.len() - 1]));
        let before = parts.drop_last().push(parts.last() + front);
        assert(before.drop_last() =~= parts.drop_last());
        assert(before.last() + seq![word.last()] =~= parts.last() + word);
        assert(before.last().push(word.last()) =~= parts.last() + word);
    }
}

/// The segments of settled words with spaces between them are the words.
pub proof fn lemma_segments_of_spaced(terms: Seq<Seq<char>>)
    requires
        !alphanumeric(' '),
        terms.len() >= 1,
        forall|k: int| 0 <= k < terms.len() ==> is_settled(#[trigger] terms[k]),
    ensures
        segments(spaced(terms)) == terms,
    decreases terms.len(),
{
    let last = terms.last();
    assert(is_settled(terms[terms.len() - 1]));
    if terms.len() == 1 {
        lemma_segments_grow(Seq::empty(), last);
        assert(Seq::<char>::empty() + last =~= last);
        assert(segments(Seq::<char>::empty()) =~= seq![Seq::<char>::empty()]);
        assert(segments(last) =~= terms);
    } else {
        let front = terms.drop_last();
        assert forall|k: int| 0 <= k < front.len() implies is_settled(#[trigger] front[k]) by {
            assert(front[k] == terms[k]);
        }
        lemma_segments_of_spaced(front);
        let head = spaced(front) + seq![' '];
        assert(head.drop_last() =~= spaced(front));
        assert(head.last() == ' ');
        assert(segments(head) == front.push(Seq::<char>::empty()));
        lemma_segments_grow(head, last);
        assert(Seq::<char>::empty() + last =~= last);
        assert(front.push(Seq::<char>::empty()).drop_last() =~= front);
        assert(front.push(last) =~= terms);
    }
}

/// The terms of settled words are the words.
pub proof fn lemma_terms_of_settled(terms: Seq<Seq<char>>)
    requires
        forall|k: int| 0 <= k < terms.len() ==> is_settled(#[trigger] terms[k]),
    ensures
        terms_of(terms) == terms,
    decreases terms.len(),
{
    if terms.len() > 0 {
        let front = terms.drop_last();
        assert forall|k: int| 0 <= k < front.len() implies is_settled(#[trigger] front[k]) by {
            assert(front[k] == terms[k]);
        }
        lemma_terms_of_settled(front);
        assert(is_settled(terms[terms.len() - 1]));
        assert(front.push(terms.last()) =~= terms);
    }
}

/// Analysis leaves its own terms alone, as far as they are settled: where
/// analyzing each term of a text alone gives that term back, analyzing the
/// terms of the text, written with spaces between them, gives the terms of
/// the text. The space must split, and where the text has no terms the
/// empty text must have none either.
pub proof fn lemma_analysis_repeats(text: Seq<char>)
    requires
        !alphanumeric(' '),
        forall|k: int| 0 <= k < analyzed(text).len() ==> is_settled(#[trigger] analyzed(text)[k]),
        analyzed(text).len() == 0 ==> term_of(Seq::empty()) is None,
    ensures
        analyzed(spaced(analyzed(text))) == analyzed(text),
{
    let terms = analyzed(text);
    if terms.len() == 0 {
        let none = Seq::<char>::empty();
        assert(segments(none) =~= seq![none]);
        assert(seq![none].drop_last() =~= Seq::<Seq<char>>::empty());
        assert(terms_of(seq![none]) =~= Seq::<Seq<char>>::empty()) by {
            assert(seq![none].last() == none);
            assert(terms_of(seq![none].drop_last()) =~= Seq::<Seq<char>>::empty());
        }
    } else {
        lemma_segments_of_spaced(terms);
        lemma_terms_of_settled(terms);
    }
}

/// The views of a list of strings.
pub open spec fn texts(strings: Seq<String>) -> Seq<Seq<char>> {
    Seq::new(strings.len(), |i: int| strings[i]@)
}

/// Turns text into index terms.
pub struct Analyzer {
    stopwords: Vec<&'static str>,
}

impl Analyzer {
    /// The stopwords of the analyzer.
    pub closed spec fn stopwords(self) -> Seq<Seq<char>> {
        Seq::new(self.stopwords@.len(), |i: int| self.stopwords@[i]@)
    }

    #[verifier::type_invariant]
    spec fn holds_english_stopwords(self) -> bool {
        self.stopwords() == english_stopwords()
    }

    /// An analyzer for English text.
    pub fn new_english() -> (analyzer: Analyzer)
        ensures
            analyzer.stopwords() == english_stopwords(),
    {
        let stopwords: Vec<&'static str> = vec![
            "a",
            "and",
            "be",
            "have",
            "i",
            "in",
            "of",
            "that",
            "the",
            "to",
        ];
        assert(Seq::new(stopwords@.len(), |i: int| stopwords@[i]@) =~= english_stopwords());
        Analyzer { stopwords }
    }

    /// Whether the word is one of the analyzer's stopwords.
    fn stops(&self, word: &str) -> (stop: bool)
        ensures
            stop == is_stopword(word@),
    {
        proof {
            use_type_invariant(self);
        }
        let ghost list = Seq::new(self.stopwords@.len(), |i: int| self.stopwords@[i]@);
        let mut k: usize = 0;
        while k < self.stopwords.len()
            invariant
                k <= self.stopwords@.len(),
                list == Seq::new(self.stopwords@.len(), |i: int| self.stopwords@[i]@),
                list == english_stopwords(),
                forall|j: int| 0 <= j < k ==> list[j] != word@,
            decreases self.stopwords@.len() - k,
        {
            if same_text(self.stopwords[k], word) {
                assert(list[k as int] == word@);
                return true;
            }
            k = k + 1;
        }
        false
    }

    /// The index term of one segment, if it has one.
    fn term(&self, segment: &str) -> (term: Option<String>)
        ensures
            match term {
                Some(t) => term_of(segment@) == Some(t@),
                None => term_of(segment@).is_none(),
            },
    {
        let lower = to_lowercase(segment);
        if lower.as_str().is_empty() || self.stops(lower.as_str()) {
            None
        } else {
            Some(stem_english(lower.as_str()))
        }
    }

    /// Splits `letters` at every character that is not alphanumeric and
    /// gives, for each segment whose lowercase form is neither empty nor a
    /// stopword, the stem of that form.
    pub fn analyze(&self, letters: &str) -> (terms: Vec<String>)
        ensures
            texts(terms@) == analyzed(letters@),
    {
        let mut terms: Vec<String> = Vec::new();
        let mut word = String::new();
        let ghost mut done: Seq<Seq<char>> = Seq::empty();
        for c in it: letters.chars()
            invariant
                it.seq() == letters@,
                segments(letters@.take(it.index())) == done.push(word@),
                texts(terms@) == terms_of(done),
        {
            let ghost seen = letters@.take(it.index());
            let ghost next = letters@.take(it.index() + 1);
            proof {
                assert(next.drop_last() =~= seen);
                assert(next.last() == c);
            }
            if is_alphanumeric(c) {
                let ghost grown = word@;
                push_char(&mut word, c);
                proof {
                    assert(done.push(grown).drop_last() =~= done);
                }
            } else {
                match self.term(word.as_str()) {
                    Some(term) => {
                        terms.push(term);
                    },
                    None => {},
                }
                proof {
                    assert(done.push(word@).drop_last() =~= done);
                    done = done.push(word@);
                }
                word = String::new();
            }
        }
        match self.term(word.as_str()) {
            Some(term) => {
                terms.push(term);
            },
            None => {},
        }
        proof {
            assert(letters@.take(letters@.len() as int) =~= letters@);
            assert(done.push(word@).drop_last() =~= done);
        }
        terms
    }
}

} // verus!
