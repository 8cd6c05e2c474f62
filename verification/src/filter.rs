//! Filters of keywords.
//!
//! Text to match: `A`; `B`; `C`; `A B`; `B A C`
//!
//! | Filter | Matches          |
//! | ------ | ---------------- |
//! | `a B`  | `A B`; `B A C`   |
//! | `A_B`  | `A B`            |

use crate::text::{
    chars_of, contains, is_prefix, lowercased, occurs_in, replace_char, replaced, same_chars,
    split_whitespace, starts_with, texts, to_lowercase, words,
};
use vstd::prelude::*;

verus! {

/// The most words of a text that are held against the keywords.
pub const WORDS_SCORED: usize = 16;

/// A list of keywords that a text must hold, all of them.
#[derive(Debug)]
pub struct Filter {
    keywords: Vec<Vec<char>>,
}

/// The keywords that a filter text names: its words in lower case, with
/// `_` standing for a space inside a keyword.
pub open spec fn keywords_of(filter: Seq<char>) -> Seq<Seq<char>> {
    words(lowercased(filter)).map_values(|word: Seq<char>| replaced(word, '_', ' '))
}

/// The form in which a text is held against the keywords: lower case,
/// with spaces for `_`.
pub open spec fn subject_of(text: Seq<char>) -> Seq<char> {
    replaced(lowercased(text), '_', ' ')
}

/// What the first `count` words of a subject earn: one for a word that
/// begins with the keyword of its place, three where it is that keyword.
pub open spec fn bonus(keywords: Seq<Seq<char>>, subject_words: Seq<Seq<char>>, count: int) -> int
    decreases count,
{
    if count <= 0 {
        0
    } else {
        bonus(keywords, subject_words, count - 1) + (if is_prefix(
            keywords[count - 1],
            subject_words[count - 1],
        ) {
            if subject_words[count - 1] == keywords[count - 1] {
                3int
            } else {
                1int
            }
        } else {
            0int
        })
    }
}

/// How many places are scored: as many as there are keywords and words,
/// and no more than [`WORDS_SCORED`].
pub open spec fn scored_places(keywords: Seq<Seq<char>>, subject_words: Seq<Seq<char>>) -> int {
    let words = if subject_words.len() < WORDS_SCORED {
        subject_words.len() as int
    } else {
        WORDS_SCORED as int
    };
    if keywords.len() < words {
        keywords.len() as int
    } else {
        words
    }
}

/// How well a subject matches the keywords: 0 where it lacks a keyword,
/// else 1 and what its words earn.
pub open spec fn score(keywords: Seq<Seq<char>>, subject: Seq<char>) -> int {
    if forall|k: int| 0 <= k < keywords.len() ==> occurs_in(#[trigger] keywords[k], subject) {
        1 + bonus(keywords, words(subject), scored_places(keywords, words(subject)))
    } else {
        0
    }
}

proof fn lemma_bonus_bound(keywords: Seq<Seq<char>>, subject_words: Seq<Seq<char>>, count: int)
    ensures
        0 <= bonus(keywords, subject_words, count) <= 3 * (if count < 0 {
            0
        } else {
            count
        }),
    decreases count,
{
    if count > 0 {
        lemma_bonus_bound(keywords, subject_words, count - 1);
    }
}

impl View for Filter {
    type V = Seq<Seq<char>>;

    closed spec fn view(&self) -> Seq<Seq<char>> {
        texts(self.keywords@)
    }
}

impl Filter {
    /// The filter of the keywords that a text names.
    pub fn new(filter: &str) -> (made: Filter)
        ensures
            made@ == keywords_of(filter@),
    {
        let lowercase = to_lowercase(filter);
        let chars = chars_of(lowercase.as_str());
        let found = split_whitespace(&chars);
        let mut keywords: Vec<Vec<char>> = Vec::new();
        let mut i: usize = 0;
        proof {
            assert(texts(keywords@) =~= keywords_of(filter@).take(0));
        }
        while i < found.len()
            invariant
                i <= found.len(),
                texts(found@) == words(lowercased(filter@)),
                texts(keywords@) == keywords_of(filter@).take(i as int),
            decreases found.len() - i,
        {
            let ghost before = keywords@;
            let keyword = replace_char(&found[i], '_', ' ');
            keywords.push(keyword);
            proof {
                assert(texts(found@)[i as int] == found@[i as int]@);
                assert(texts(keywords@) =~= texts(before).push(keyword@));
                assert(keywords_of(filter@).take(i + 1) =~= keywords_of(filter@).take(
                    i as int,
                ).push(keyword@));
            }
            i += 1;
        }
        proof {
            assert(keywords_of(filter@).take(i as int) =~= keywords_of(filter@));
        }
        Filter { keywords }
    }

    /// How well a text matches the filter: 0 where it does not match, more
    /// than 0 where it does.
    pub fn test(&self, text: &str) -> (result: u32)
        ensures
            result == score(self@, subject_of(text@)),
    {
        let lowercase = to_lowercase(text);
        let subject = replace_char(&chars_of(lowercase.as_str()), '_', ' ');
        let mut k: usize = 0;
        while k < self.keywords.len()
            invariant
                k <= self.keywords.len(),
                subject@ == subject_of(text@),
                forall|j: int| 0 <= j < k ==> occurs_in(#[trigger] self@[j], subject@),
            decreases self.keywords.len() - k,
        {
            proof {
                assert(self@[k as int] == self.keywords@[k as int]@);
            }
            if !contains(&subject, &self.keywords[k]) {
                return 0;
            }
            k += 1;
        }
        let subject_words = split_whitespace(&subject);
        let mut places = if subject_words.len() < WORDS_SCORED {
            subject_words.len()
        } else {
            WORDS_SCORED
        };
        if self.keywords.len() < places {
            places = self.keywords.len();
        }
        let mut result: u32 = 1;
        let mut i: usize = 0;
        while i < places
            invariant
                i <= places,
                places <= WORDS_SCORED,
                places <= self.keywords.len(),
                places <= subject_words.len(),
                texts(subject_words@) == words(subject@),
                result == 1 + bonus(self@, words(subject@), i as int),
                result <= 1 + 3 * i,
            decreases places - i,
        {
            proof {
                assert(self@[i as int] == self.keywords@[i as int]@);
                assert(texts(subject_words@)[i as int] == subject_words@[i as int]@);
            }
            if starts_with(&subject_words[i], &self.keywords[i]) {
                result += 1;
                if same_chars(&subject_words[i], &self.keywords[i]) {
                    result += 2;
                }
            }
            i += 1;
        }
        result
    }
}

} // verus!
