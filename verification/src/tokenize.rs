use vstd::prelude::*;

verus! {

// The tokenizer turns raw text into stemmed, lowercased terms. The three
// primitives below (Unicode lowercasing, whitespace splitting, English
// stemming) are performed by outside code; each result is a pure function of
// the input characters, so each gets a name that the contracts build on.

/// The lowercased form of a character sequence, as `str::to_lowercase` yields it.
pub uninterp spec fn lower_of(s: Seq<char>) -> Seq<char>;

/// The English stem of a word, as `rust_stemmers` yields it.
pub uninterp spec fn stem_of(s: Seq<char>) -> Seq<char>;

/// The whitespace-separated words of a text, as `str::split_whitespace` yields them.
pub uninterp spec fn words_of(s: Seq<char>) -> Seq<Seq<char>>;

/// A single term as indexing and querying see it: lowercased, then stemmed.
pub open spec fn norm_of(w: Seq<char>) -> Seq<char> {
    stem_of(lower_of(w))
}

/// The token sequence of a text: split on whitespace, then normalize each word.
pub open spec fn tokens_of(text: Seq<char>) -> Seq<Seq<char>> {
    words_of(text).map_values(|w: Seq<char>| norm_of(w))
}

/// Relies on `str::to_lowercase`: the result depends on the input characters alone.
#[verifier::external_body]
fn lowercase(s: &str) -> (r: String)
    ensures
        r@ == lower_of(s@),
{
    s.to_lowercase()
}

/// Relies on `rust_stemmers::Stemmer::create` and `Stemmer::stem` with the
/// English algorithm: a pure Snowball stemmer whose output depends on the
/// input characters alone.
#[verifier::external_body]
fn stem_en(s: &str) -> (r: String)
    ensures
        r@ == stem_of(s@),
{
    let stemmer = rust_stemmers::Stemmer::create(rust_stemmers::Algorithm::English);
    stemmer.stem(s).to_string()
}

/// Relies on `str::split_whitespace`: yields the maximal runs of
/// non-whitespace characters, in order; each word is a non-empty part of the
/// input, so there are at most as many words as characters.
#[verifier::external_body]
fn split_words(s: &str) -> (r: Vec<String>)
    ensures
        r@.map_values(|w: String| w@) == words_of(s@),
        r@.len() <= s@.len(),
{
    s.split_whitespace().map(|w| w.to_owned()).collect()
}

/// Normalizes one word the way both indexing and querying do: lowercase, then
/// stem. Using the same normalization on both sides is what makes a query
/// term match a document term whenever the two share a linguistic root.
pub fn normalize_term(w: &str) -> (r: String)
    ensures
        r@ == norm_of(w@),
{
    let lowered = lowercase(w);
    stem_en(lowered.as_str())
}

/// Tokenizes a full text: whitespace split, then per-word normalization.
pub fn tokenize(text: &str) -> (r: Vec<String>)
    ensures
        r@.map_values(|w: String| w@) == tokens_of(text@),
        r@.len() <= text@.len(),
{
    let words = split_words(text);
    let mut out: Vec<String> = Vec::new();
    let mut i: usize = 0;
    while i < words.len()
        invariant
            i <= words.len(),
            words@.map_values(|w: String| w@) == words_of(text@),
            out@.len() == i,
            forall|j: int| 0 <= j < i ==> out@.map_values(|w: String| w@)[j] == norm_of(words@[j]@),
        decreases words.len() - i,
    {
        let t = normalize_term(words[i].as_str());
        out.push(t);
        i += 1;
    }
    proof {
        assert(out@.map_values(|w: String| w@) =~= tokens_of(text@));
    }
    out
}

} // verus!
