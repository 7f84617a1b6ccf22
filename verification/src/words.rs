//! Splitting a tag string into its tags.
//!
//! A source gives the tags of one category of an image as one string, the
//! tags separated by white space.

use vstd::prelude::*;
use vstd::string::StrSliceExecFns;

verus! {

/// Whether `c` is white space, as `char::is_whitespace` decides it.
pub uninterp spec fn is_white_space(c: char) -> bool;

/// `char::is_whitespace`: whether `c` has the Unicode property White_Space.
/// The contract gives that answer a name and states nothing else of it.
#[verifier::external_body]
fn char_is_whitespace(c: char) -> (blank: bool)
    ensures
        blank == is_white_space(c),
{
    c.is_whitespace()
}

/// The words of `chars`, where `blank` marks the characters that separate
/// words: the longest runs of unmarked characters, in order. A character
/// that is not marked continues the word of the character before it, or
/// starts a word if that one is marked or there is none.
pub open spec fn words(chars: Seq<char>, blank: Seq<bool>) -> Seq<Seq<char>>
    recommends
        chars.len() == blank.len(),
    decreases chars.len(),
{
    if chars.len() == 0 {
        Seq::empty()
    } else {
        let n = chars.len() - 1;
        let init = words(chars.take(n), blank.take(n));
        if blank[n] {
            init
        } else if n > 0 && !blank[n - 1] {
            init.drop_last().push(init.last().push(chars[n]))
        } else {
            init.push(seq![chars[n]])
        }
    }
}

/// The marks that white space gives to `chars`.
pub open spec fn white_space_marks(chars: Seq<char>) -> Seq<bool> {
    chars.map_values(|c: char| is_white_space(c))
}

/// What each string of `strings` holds.
pub open spec fn texts(strings: Seq<String>) -> Seq<Seq<char>> {
    strings.map_values(|s: String| s@)
}

/// No word is empty, and no word holds a marked character: every character
/// of every word is a character of `chars` that is not marked. If the last
/// character is not marked, there is a word.
pub proof fn lemma_words(chars: Seq<char>, blank: Seq<bool>)
    requires
        chars.len() == blank.len(),
    ensures
        forall|k: int| 0 <= k < words(chars, blank).len() ==> (#[trigger] words(chars, blank)[k]).len() > 0,
        forall|k: int, j: int|
            0 <= k < words(chars, blank).len() && 0 <= j < words(chars, blank)[k].len()
                ==> exists|i: int|
                0 <= i < chars.len() && !blank[i] && #[trigger] chars[i] == #[trigger] words(
                    chars,
                    blank,
                )[k][j],
        blank.len() > 0 && !blank.last() ==> words(chars, blank).len() > 0,
    decreases chars.len(),
{
    if chars.len() > 0 {
        let n = chars.len() - 1;
        let init = words(chars.take(n), blank.take(n));
        let all = words(chars, blank);
        lemma_words(chars.take(n), blank.take(n));
        assert forall|k: int, j: int| 0 <= k < all.len() && 0 <= j < all[k].len() implies exists|
            i: int,
        |
            0 <= i < chars.len() && !blank[i] && #[trigger] chars[i] == #[trigger] all[k][j] by {
            if k < init.len() && j < init[k].len() && all[k][j] == init[k][j] {
                let i = choose|i: int|
                    0 <= i < n && !blank.take(n)[i] && #[trigger] chars.take(n)[i] == init[k][j];
                assert(!blank[i] && chars[i] == all[k][j]);
            } else {
                assert(!blank[n] && chars[n] == all[k][j]);
            }
        }
    }
}

/// The marks of `text`: for each character, whether it is white space.
pub fn classify(text: &str) -> (blank: Vec<bool>)
    ensures
        blank@ == white_space_marks(text@),
{
    let mut blank: Vec<bool> = Vec::new();
    for c in it: text.chars()
        invariant
            it.seq() == text@,
            blank@ == white_space_marks(text@.take(it.index() as int)),
    {
        proof {
            let i = it.index() as int;
            assert(text@.take(i + 1) =~= text@.take(i).push(c));
            assert(white_space_marks(text@.take(i + 1)) =~= white_space_marks(text@.take(i)).push(
                is_white_space(c),
            ));
        }
        blank.push(char_is_whitespace(c));
    }
    assert(text@.take(text@.len() as int) =~= text@);
    blank
}

/// The words of `text`, where `blank` marks the characters that separate
/// words.
pub fn split_marked(text: &str, blank: &Vec<bool>) -> (out: Vec<String>)
    requires
        blank@.len() == text@.len(),
    ensures
        texts(out@) == words(text@, blank@),
{
    let mut out: Vec<String> = Vec::new();
    let mut start: usize = 0;
    let mut in_word = false;
    let mut i: usize = 0;
    while i < blank.len()
        invariant
            i <= blank.len(),
            blank@.len() == text@.len(),
            in_word == (i > 0 && !blank@[i - 1]),
            in_word ==> start < i && words(text@.take(i as int), blank@.take(i as int)) == texts(
                out@,
            ).push(text@.subrange(start as int, i as int)),
            !in_word ==> words(text@.take(i as int), blank@.take(i as int)) == texts(out@),
        decreases blank.len() - i,
    {
        proof {
            assert(text@.take(i + 1).take(i as int) =~= text@.take(i as int));
            assert(blank@.take(i + 1).take(i as int) =~= blank@.take(i as int));
        }
        if blank[i] {
            if in_word {
                let word = text.substring_char(start, i).to_owned();
                proof {
                    assert(texts(out@.push(word)) =~= texts(out@).push(word@));
                }
                out.push(word);
                in_word = false;
            }
        } else {
            if in_word {
                proof {
                    let init = texts(out@).push(text@.subrange(start as int, i as int));
                    assert(init.drop_last() =~= texts(out@));
                    assert(init.last().push(text@[i as int]) =~= text@.subrange(
                        start as int,
                        i + 1,
                    ));
                    assert(init.drop_last().push(init.last().push(text@[i as int])) =~= texts(
                        out@,
                    ).push(text@.subrange(start as int, i + 1)));
                }
            } else {
                start = i;
                in_word = true;
                proof {
                    assert(seq![text@[i as int]] =~= text@.subrange(i as int, i + 1));
                }
            }
        }
        i += 1;
    }
    proof {
        assert(text@.take(i as int) =~= text@);
        assert(blank@.take(i as int) =~= blank@);
    }
    if in_word {
        let word = text.substring_char(start, i).to_owned();
        proof {
            assert(texts(out@.push(word)) =~= texts(out@).push(word@));
        }
        out.push(word);
    }
    out
}

/// The tags of a tag string: its longest runs of characters that are not
/// white space, in order.
pub fn split_tags(text: &str) -> (out: Vec<String>)
    ensures
        texts(out@) == words(text@, white_space_marks(text@)),
{
    let blank = classify(text);
    split_marked(text, &blank)
}

} // verus!
