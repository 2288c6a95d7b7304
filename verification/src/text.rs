//! Recognized text entities: characters, words and lines, and keyword
//! search over recognized lines.

use vstd::prelude::*;

use crate::geom::RotatedRect;

verus! {

/// One decoded character and its estimated box within the line.
#[derive(Clone, Copy)]
pub struct TextChar {
    pub ch: char,
    pub rect: RotatedRect,
}

/// One recognized word: its decoded characters and its bounding box.
pub struct TextWord {
    pub chars: Vec<TextChar>,
    pub rect: RotatedRect,
}

/// One recognized line: its words in reading order.
pub struct TextLine {
    pub words: Vec<TextWord>,
}

/// Whether two words hold the same characters and the same box.
pub open spec fn same_word(a: TextWord, b: TextWord) -> bool {
    a.chars@ == b.chars@ && a.rect == b.rect
}

/// The character sequence of a word.
pub open spec fn word_chars(w: TextWord) -> Seq<char> {
    w.chars@.map_values(|c: TextChar| c.ch)
}

/// The character sequence of a line: its words' characters in order.
pub open spec fn line_chars(l: TextLine) -> Seq<char> {
    l.words@.map_values(|w: TextWord| word_chars(w)).flatten()
}

/// Relies on String::push: appends exactly the given character.
pub assume_specification[ String::push ](s: &mut String, ch: char)
    ensures
        final(s)@ == old(s)@.push(ch),
;

impl TextWord {
    /// The decoded text of the word.
    pub fn text(&self) -> (t: String)
        ensures
            t@ == word_chars(*self),
    {
        let mut t = String::new();
        let mut i: usize = 0;
        while i < self.chars.len()
            invariant
                i <= self.chars@.len(),
                t@ == word_chars(*self).take(i as int),
            decreases self.chars@.len() - i,
        {
            t.push(self.chars[i].ch);
            proof {
                assert(word_chars(*self).take(i + 1) =~= word_chars(*self).take(i as int).push(
                    self.chars@[i as int].ch,
                ));
            }
            i += 1;
        }
        proof {
            assert(word_chars(*self).take(self.chars@.len() as int) =~= word_chars(*self));
        }
        t
    }
}

impl TextLine {
    /// The decoded text of the line: the characters of its words, in order.
    pub fn text(&self) -> (t: String)
        ensures
            t@ == line_chars(*self),
    {
        let ghost views = self.words@.map_values(|w: TextWord| word_chars(w));
        let mut t = String::new();
        let mut i: usize = 0;
        proof {
            assert(views.take(0) =~= Seq::<Seq<char>>::empty());
            assert(views.take(0).flatten() =~= Seq::<char>::empty());
        }
        while i < self.words.len()
            invariant
                i <= self.words@.len(),
                views == self.words@.map_values(|w: TextWord| word_chars(w)),
                t@ == views.take(i as int).flatten(),
            decreases self.words@.len() - i,
        {
            let wt = self.words[i].text();
            t.append(wt.as_str());
            proof {
                assert(views.take(i + 1) =~= views.take(i as int).push(views[i as int]));
                views.take(i as int).lemma_flatten_push(views[i as int]);
                assert(views[i as int] == word_chars(self.words@[i as int]));
            }
            i += 1;
        }
        proof {
            assert(views.take(self.words@.len() as int) =~= views);
        }
        t
    }

    /// The words of the line.
    pub fn words(&self) -> (w: &Vec<TextWord>)
        ensures
            w == &self.words,
    {
        &self.words
    }
}

/// The Unicode lower-case form of a character sequence, as
/// `str::to_lowercase` computes it. The mapping takes pages to state, so it
/// is named rather than written out; it depends on the characters alone.
pub uninterp spec fn lower_of(s: Seq<char>) -> Seq<char>;

/// Relies on str::to_lowercase: the Unicode lowercase form of a string
/// depends on its characters alone.
#[verifier::external_body]
fn lowercase_str(s: &str) -> (r: String)
    ensures
        r@ == lower_of(s@),
{
    s.to_lowercase()
}

/// Whether `needle` occurs as a contiguous run inside `hay`.
pub open spec fn has_substring(hay: Seq<char>, needle: Seq<char>) -> bool {
    exists|i: int|
        #![trigger hay.subrange(i, i + needle.len())]
        0 <= i && i + needle.len() <= hay.len() && hay.subrange(i, i + needle.len()) == needle
}

/// Whether `hay` read from position `i` differs from `needle` somewhere.
pub open spec fn mismatch_at(hay: Seq<char>, needle: Seq<char>, i: int) -> bool {
    exists|j: int| #![trigger needle[j]] 0 <= j < needle.len() && hay[i + j] != needle[j]
}

/// Check whether `needle` occurs as a contiguous run inside `hay`.
pub fn contains_chars(hay: &Vec<char>, needle: &Vec<char>) -> (r: bool)
    ensures
        r == has_substring(hay@, needle@),
{
    if needle.len() > hay.len() {
        proof {
            assert(!has_substring(hay@, needle@));
        }
        return false;
    }
    let mut i: usize = 0;
    while i <= hay.len() - needle.len()
        invariant
            needle@.len() <= hay@.len(),
            hay@.len() <= usize::MAX,
            i <= hay@.len() - needle@.len() + 1,
            forall|i2: int| 0 <= i2 < i ==> #[trigger] mismatch_at(hay@, needle@, i2),
        decreases hay@.len() - needle@.len() + 1 - i,
    {
        let mut j: usize = 0;
        let mut matches_here = true;
        while j < needle.len() && matches_here
            invariant
                needle@.len() <= hay@.len(),
                hay@.len() <= usize::MAX,
                i + needle@.len() <= hay@.len(),
                j <= needle@.len(),
                matches_here ==> forall|j2: int|
                    0 <= j2 < j ==> hay@[i + j2] == #[trigger] needle@[j2],
                !matches_here ==> mismatch_at(hay@, needle@, i as int),
            decreases needle@.len() - j,
        {
            if hay[i + j] != needle[j] {
                matches_here = false;
                proof {
                    assert(needle@[j as int] != hay@[i + j]);
                }
            }
            j += 1;
        }
        if matches_here {
            proof {
                assert(hay@.subrange(i as int, i + needle@.len()) =~= needle@);
            }
            return true;
        }
        i += 1;
    }
    proof {
        assert forall|i2: int|
            0 <= i2 && i2 + needle@.len() <= hay@.len() implies #[trigger] hay@.subrange(
            i2,
            i2 + needle@.len(),
        ) != needle@ by {
            assert(mismatch_at(hay@, needle@, i2));
            let jj = choose|jj: int|
                0 <= jj < needle@.len() && hay@[i2 + jj] != #[trigger] needle@[jj];
            assert(hay@.subrange(i2, i2 + needle@.len())[jj] == hay@[i2 + jj]);
        }
    }
    false
}

/// The lowered character sequence of a word.
fn lowered_word_chars(w: &TextWord) -> (r: Vec<char>)
    ensures
        r@ == lower_of(word_chars(*w)),
{
    let t = w.text();
    let lowered = lowercase_str(t.as_str());
    let l = lowered.as_str();
    let n = l.unicode_len();
    let mut r: Vec<char> = Vec::new();
    let mut i: usize = 0;
    while i < n
        invariant
            n == l@.len(),
            i <= n,
            l@ == lower_of(word_chars(*w)),
            r@ =~= l@.take(i as int),
        decreases n - i,
    {
        r.push(l.get_char(i));
        proof {
            assert(r@ =~= l@.take(i + 1));
        }
        i += 1;
    }
    proof {
        assert(l@.take(n as int) =~= l@);
    }
    r
}

/// Whether `w` holds the characters and box of some word of `lines`.
pub open spec fn word_from_lines(lines: Seq<TextLine>, w: TextWord) -> bool {
    exists|l: int, wi: int|
        #![trigger lines[l].words@[wi]]
        0 <= l < lines.len() && 0 <= wi < lines[l].words@.len() && same_word(
            w,
            lines[l].words@[wi],
        )
}

/// Whether a word's lowered text contains some keyword.
pub open spec fn word_matches(w: TextWord, keywords: Seq<Seq<char>>) -> bool {
    exists|k: int|
        0 <= k < keywords.len() && has_substring(lower_of(word_chars(w)), #[trigger] keywords[k])
}

/// The keyword views of a keyword list.
pub open spec fn keyword_views(keywords: Seq<Vec<char>>) -> Seq<Seq<char>> {
    keywords.map_values(|k: Vec<char>| k@)
}

/// Find every recognized word whose lowered text contains one of the
/// keywords, line by line in reading order.
///
/// A word is returned exactly when some keyword occurs inside its
/// lower-cased (Unicode case folding, as `str::to_lowercase`) character
/// sequence: every returned word matches and is a word of the input lines,
/// and every matching word of the input is returned. Keywords are matched
/// verbatim, so only lower-case keywords can match.
pub fn find_keyword_words(lines: &Vec<TextLine>, keywords: &Vec<Vec<char>>) -> (found: Vec<
    TextWord,
>)
    ensures
        forall|m: int|
            0 <= m < found@.len() ==> word_matches(
                #[trigger] found@[m],
                keyword_views(keywords@),
            ),
        forall|m: int| 0 <= m < found@.len() ==> word_from_lines(lines@, #[trigger] found@[m]),
        forall|l: int, wi: int|
            #![trigger lines@[l].words@[wi]]
            0 <= l < lines@.len() && 0 <= wi < lines@[l].words@.len() && word_matches(
                lines@[l].words@[wi],
                keyword_views(keywords@),
            ) ==> exists|m: int|
                0 <= m < found@.len() && same_word(#[trigger] found@[m], lines@[l].words@[wi]),
{
    let mut found: Vec<TextWord> = Vec::new();
    let mut l: usize = 0;
    while l < lines.len()
        invariant
            l <= lines@.len(),
            forall|m: int|
                0 <= m < found@.len() ==> word_matches(
                    #[trigger] found@[m],
                    keyword_views(keywords@),
                ),
            forall|m: int|
                0 <= m < found@.len() ==> word_from_lines(lines@, #[trigger] found@[m]),
            forall|l2: int, wi: int|
                #![trigger lines@[l2].words@[wi]]
                0 <= l2 < l && 0 <= wi < lines@[l2].words@.len() && word_matches(
                    lines@[l2].words@[wi],
                    keyword_views(keywords@),
                ) ==> exists|m: int|
                    0 <= m < found@.len() && same_word(#[trigger] found@[m], lines@[l2].words@[wi]),
        decreases lines@.len() - l,
    {
        let line = &lines[l];
        let mut wi: usize = 0;
        while wi < line.words.len()
            invariant
                l < lines@.len(),
                line == &lines@[l as int],
                wi <= line.words@.len(),
                forall|m: int|
                    0 <= m < found@.len() ==> word_matches(
                        #[trigger] found@[m],
                        keyword_views(keywords@),
                    ),
                forall|m: int|
                    0 <= m < found@.len() ==> word_from_lines(lines@, #[trigger] found@[m]),
                forall|l2: int, wi2: int|
                    #![trigger lines@[l2].words@[wi2]]
                    0 <= l2 < lines@.len() && 0 <= wi2 < lines@[l2].words@.len() && (l2 < l || (l2
                        == l && wi2 < wi)) && word_matches(
                        lines@[l2].words@[wi2],
                        keyword_views(keywords@),
                    ) ==> exists|m: int|
                        0 <= m < found@.len() && same_word(
                            #[trigger] found@[m],
                            lines@[l2].words@[wi2],
                        ),
            decreases line.words@.len() - wi,
        {
            let word = &line.words[wi];
            let lowered = lowered_word_chars(word);
            let mut k: usize = 0;
            let mut matched = false;
            while k < keywords.len()
                invariant
                    k <= keywords@.len(),
                    word == &lines@[l as int].words@[wi as int],
                    lowered@ == lower_of(word_chars(*word)),
                    matched ==> word_matches(*word, keyword_views(keywords@)),
                    !matched ==> forall|k2: int|
                        0 <= k2 < k ==> !has_substring(
                            lower_of(word_chars(*word)),
                            #[trigger] keyword_views(keywords@)[k2],
                        ),
                decreases keywords@.len() - k,
            {
                if !matched && contains_chars(&lowered, &keywords[k]) {
                    matched = true;
                    proof {
                        assert(keyword_views(keywords@)[k as int] == keywords@[k as int]@);
                    }
                }
                k += 1;
            }
            if matched {
                let ghost found0 = found@;
                found.push(line.words[wi].clone_word());
                proof {
                    assert(same_word(
                        found@[found0.len() as int],
                        lines@[l as int].words@[wi as int],
                    ));
                    assert forall|m: int| 0 <= m < found@.len() implies word_from_lines(
                        lines@,
                        #[trigger] found@[m],
                    ) by {
                        if m < found0.len() {
                            assert(found@[m] == found0[m]);
                            assert(word_from_lines(lines@, found0[m]));
                        } else {
                            assert(same_word(found@[m], lines@[l as int].words@[wi as int]));
                            assert(word_from_lines(lines@, found@[m]));
                        }
                    }
                    assert forall|l2: int, wi2: int|
                        #![trigger lines@[l2].words@[wi2]]
                        0 <= l2 < lines@.len() && 0 <= wi2 < lines@[l2].words@.len() && (l2 < l
                            || (l2 == l && wi2 < wi + 1)) && word_matches(
                            lines@[l2].words@[wi2],
                            keyword_views(keywords@),
                        ) implies exists|m: int|
                            0 <= m < found@.len() && same_word(
                                #[trigger] found@[m],
                                lines@[l2].words@[wi2],
                            ) by {
                        if l2 == l && wi2 == wi {
                            assert(same_word(
                                found@[found0.len() as int],
                                lines@[l2].words@[wi2],
                            ));
                        } else {
                            let m = choose|m: int|
                                0 <= m < found0.len() && same_word(
                                    #[trigger] found0[m],
                                    lines@[l2].words@[wi2],
                                );
                            assert(found@[m] == found0[m]);
                            assert(same_word(found@[m], lines@[l2].words@[wi2]));
                        }
                    }
                }
            } else {
                proof {
                    assert(!word_matches(*word, keyword_views(keywords@)));
                }
            }
            wi += 1;
        }
        l += 1;
    }
    found
}

impl TextWord {
    /// A copy holding the same characters and box.
    pub fn clone_word(&self) -> (w: TextWord)
        ensures
            same_word(w, *self),
    {
        let mut chars: Vec<TextChar> = Vec::new();
        let mut i: usize = 0;
        while i < self.chars.len()
            invariant
                i <= self.chars@.len(),
                chars@ =~= self.chars@.take(i as int),
            decreases self.chars@.len() - i,
        {
            chars.push(self.chars[i]);
            proof {
                assert(chars@ =~= self.chars@.take(i + 1));
            }
            i += 1;
        }
        proof {
            assert(self.chars@.take(self.chars@.len() as int) =~= self.chars@);
            assert(chars@ =~= self.chars@);
        }
        TextWord { chars, rect: self.rect }
    }
}

} // verus!
