//! The tokenizer: source text to a sequence of tokens.
//!
//! A comment runs from a `#` to the end of its line. What is left is split on
//! runs of whitespace; there is no quoting and no escaping.

use vstd::prelude::*;

verus! {

/// The character that starts a comment.
pub const COMMENT_MARKER: char = '#';

/// The character that ends a line, and with it a comment.
pub const LINE_END: char = '\n';

/// The characters that separate tokens: those with the Unicode property
/// `White_Space`.
pub open spec fn is_whitespace(c: char) -> bool {
    let code = c as u32;
    ||| 0x09 <= code <= 0x0D
    ||| code == 0x20
    ||| code == 0x85
    ||| code == 0xA0
    ||| code == 0x1680
    ||| 0x2000 <= code <= 0x200A
    ||| code == 0x2028
    ||| code == 0x2029
    ||| code == 0x202F
    ||| code == 0x205F
    ||| code == 0x3000
}

/// Position `i` of `s` lies in a comment: a comment marker stands at `i` or
/// before it on the same line.
pub open spec fn in_comment(s: Seq<char>, i: int) -> bool
    decreases i,
{
    if 0 <= i < s.len() {
        if s[i] == COMMENT_MARKER {
            true
        } else if s[i] == LINE_END {
            false
        } else {
            i > 0 && in_comment(s, i - 1)
        }
    } else {
        false
    }
}

/// The text with each character of a comment replaced by a space.
pub open spec fn without_comments(s: Seq<char>) -> Seq<char> {
    Seq::new(
        s.len(),
        |i: int|
            if in_comment(s, i) {
                ' '
            } else {
                s[i]
            },
    )
}

/// The length of the longest prefix of `s` that holds no whitespace.
pub open spec fn word_len(s: Seq<char>) -> nat
    decreases s.len(),
{
    if s.len() == 0 || is_whitespace(s[0]) {
        0
    } else {
        1 + word_len(s.drop_first())
    }
}

/// The maximal runs of characters other than whitespace, in order.
pub open spec fn words(s: Seq<char>) -> Seq<Seq<char>>
    decreases s.len(),
    via words_decreases
{
    if s.len() == 0 {
        Seq::empty()
    } else if is_whitespace(s[0]) {
        words(s.drop_first())
    } else {
        let n = word_len(s) as int;
        seq![s.take(n)] + words(s.skip(n))
    }
}

#[via_fn]
proof fn words_decreases(s: Seq<char>) {
    lemma_word_len_bounds(s);
}

/// The tokens of a source text.
pub open spec fn tokens_of(src: Seq<char>) -> Seq<Seq<char>> {
    words(without_comments(src))
}

/// A word is no longer than the text, and not empty where the text starts
/// with a character other than whitespace.
pub proof fn lemma_word_len_bounds(s: Seq<char>)
    ensures
        word_len(s) <= s.len(),
        s.len() > 0 && !is_whitespace(s[0]) ==> word_len(s) > 0,
    decreases s.len(),
{
    if s.len() > 0 && !is_whitespace(s[0]) {
        lemma_word_len_bounds(s.drop_first());
    }
}

/// A run without whitespace that is followed by whitespace, or by nothing, is
/// the longest such prefix.
proof fn lemma_word_len_of_run(run: Seq<char>, rest: Seq<char>)
    requires
        forall|k: int| 0 <= k < run.len() ==> !is_whitespace(#[trigger] run[k]),
        rest.len() == 0 || is_whitespace(rest[0]),
    ensures
        word_len(run + rest) == run.len(),
    decreases run.len(),
{
    if run.len() == 0 {
        assert(run + rest =~= rest);
    } else {
        assert((run + rest).drop_first() =~= run.drop_first() + rest);
        lemma_word_len_of_run(run.drop_first(), rest);
    }
}

/// Such a run, where it is not empty, is the first word.
proof fn lemma_words_after_run(run: Seq<char>, rest: Seq<char>)
    requires
        run.len() > 0,
        forall|k: int| 0 <= k < run.len() ==> !is_whitespace(#[trigger] run[k]),
        rest.len() == 0 || is_whitespace(rest[0]),
    ensures
        words(run + rest) == seq![run] + words(rest),
{
    lemma_word_len_of_run(run, rest);
    assert(!is_whitespace(run[0]));
    assert((run + rest).take(run.len() as int) =~= run);
    assert((run + rest).skip(run.len() as int) =~= rest);
}

/// No line ends in `s` behind position `from` up to position `to`.
pub open spec fn same_line(s: Seq<char>, from: int, to: int) -> bool {
    forall|k: int| from < k <= to ==> #[trigger] s[k] != LINE_END
}

/// A position lies in a comment exactly where a comment marker stands at it,
/// or before it with no line end between the two.
pub proof fn comment_starts_at_a_marker(s: Seq<char>, i: int)
    ensures
        in_comment(s, i) <==> 0 <= i < s.len() && exists|j: int|
            0 <= j <= i && #[trigger] s[j] == COMMENT_MARKER && same_line(s, j, i),
    decreases i,
{
    if 0 <= i < s.len() {
        if s[i] == COMMENT_MARKER {
            assert(same_line(s, i, i));
        } else if s[i] == LINE_END {
            assert forall|j: int| 0 <= j <= i && #[trigger] s[j] == COMMENT_MARKER implies !same_line(
                s,
                j,
                i,
            ) by {
                assert(s[i] == LINE_END);
            }
        } else if i > 0 {
            comment_starts_at_a_marker(s, i - 1);
            if in_comment(s, i - 1) {
                let j = choose|j: int|
                    0 <= j <= i - 1 && #[trigger] s[j] == COMMENT_MARKER && same_line(s, j, i - 1);
                assert(same_line(s, j, i));
            }
            if exists|j: int| 0 <= j <= i && #[trigger] s[j] == COMMENT_MARKER && same_line(s, j, i) {
                let j = choose|j: int|
                    0 <= j <= i && #[trigger] s[j] == COMMENT_MARKER && same_line(s, j, i);
                assert(same_line(s, j, i - 1));
            }
        }
    }
}

/// The characters of the first word are not whitespace.
proof fn lemma_word_has_no_whitespace(s: Seq<char>, k: int)
    requires
        0 <= k < word_len(s),
    ensures
        k < s.len(),
        !is_whitespace(s[k]),
    decreases s.len(),
{
    if k > 0 {
        lemma_word_has_no_whitespace(s.drop_first(), k - 1);
    }
}

/// No word is empty.
proof fn lemma_word_not_empty(s: Seq<char>, i: int)
    requires
        0 <= i < words(s).len(),
    ensures
        words(s)[i].len() > 0,
    decreases s.len(),
{
    if s.len() > 0 {
        if is_whitespace(s[0]) {
            lemma_word_not_empty(s.drop_first(), i);
        } else {
            lemma_word_len_bounds(s);
            if i > 0 {
                lemma_word_not_empty(s.skip(word_len(s) as int), i - 1);
            }
        }
    }
}

/// Each character of a word is a character of the text, and not whitespace.
/// Gives the place in the text.
proof fn lemma_word_char(s: Seq<char>, i: int, k: int) -> (j: int)
    requires
        0 <= i < words(s).len(),
        0 <= k < words(s)[i].len(),
    ensures
        0 <= j < s.len(),
        s[j] == words(s)[i][k],
        !is_whitespace(s[j]),
    decreases s.len(),
{
    if is_whitespace(s[0]) {
        lemma_word_char(s.drop_first(), i, k) + 1
    } else {
        let n = word_len(s) as int;
        lemma_word_len_bounds(s);
        if i == 0 {
            lemma_word_has_no_whitespace(s, k);
            k
        } else {
            lemma_word_char(s.skip(n), i - 1, k) + n
        }
    }
}

/// No token is empty.
pub proof fn tokens_are_not_empty(src: Seq<char>, i: int)
    requires
        0 <= i < tokens_of(src).len(),
    ensures
        tokens_of(src)[i].len() > 0,
{
    lemma_word_not_empty(without_comments(src), i);
}

/// No token holds whitespace or the comment marker.
pub proof fn tokens_are_clean(src: Seq<char>, i: int, k: int)
    requires
        0 <= i < tokens_of(src).len(),
        0 <= k < tokens_of(src)[i].len(),
    ensures
        !is_whitespace(tokens_of(src)[i][k]),
        tokens_of(src)[i][k] != COMMENT_MARKER,
{
    let j = lemma_word_char(without_comments(src), i, k);
    assert(src[j] == COMMENT_MARKER ==> in_comment(src, j));
}

/// Whether `c` separates tokens.
pub fn separates(c: char) -> (b: bool)
    ensures
        b == is_whitespace(c),
{
    let code = c as u32;
    (0x09 <= code && code <= 0x0D) || code == 0x20 || code == 0x85 || code == 0xA0 || code
        == 0x1680 || (0x2000 <= code && code <= 0x200A) || code == 0x2028 || code == 0x2029
        || code == 0x202F || code == 0x205F || code == 0x3000
}

/// `String::push` of the standard library: afterwards the string holds the
/// characters that it held, followed by `ch`. Taken from its documentation,
/// not proved.
pub assume_specification[ String::push ](s: &mut String, ch: char)
    ensures
        final(s)@ == old(s)@.push(ch),
;

/// Splits a source text into its tokens.
pub fn tokenize(src: &str) -> (tokens: Vec<String>)
    ensures
        tokens.deep_view() == tokens_of(src@),
{
    let ghost text = without_comments(src@);
    let mut tokens: Vec<String> = Vec::new();
    let mut current = String::new();
    let mut commented = false;
    proof {
        assert(tokens.deep_view() =~= Seq::<Seq<char>>::empty());
        assert(current@ + text.skip(0) =~= text);
        assert(tokens.deep_view() + words(text) =~= words(text));
    }
    for c in it: src.chars()
        invariant
            it.seq() == src@,
            text == without_comments(src@),
            commented == (it.index() > 0 && in_comment(src@, it.index() - 1)),
            forall|k: int| 0 <= k < current@.len() ==> !is_whitespace(#[trigger] current@[k]),
            tokens_of(src@) == tokens.deep_view() + words(
                current@ + text.skip(it.index() as int),
            ),
    {
        let ghost at = it.index() as int;
        let ghost done = tokens.deep_view();
        let ghost run = current@;
        let ghost rest = text.skip(at + 1);
        proof {
            assert(text.skip(at) =~= seq![text[at]] + rest);
        }
        if c == COMMENT_MARKER {
            commented = true;
        } else if c == LINE_END {
            commented = false;
        }
        assert(commented == in_comment(src@, at));
        if commented || separates(c) {
            assert(is_whitespace(text[at]));
            if !current.as_str().is_empty() {
                tokens.push(current);
                current = String::new();
                proof {
                    lemma_words_after_run(run, text.skip(at));
                    assert(tokens.deep_view() =~= done.push(run));
                    assert(current@ + rest =~= rest);
                    assert(text.skip(at).drop_first() =~= rest);
                    assert(done + (seq![run] + words(rest)) =~= done.push(run) + words(rest));
                }
            } else {
                proof {
                    assert(run + text.skip(at) =~= text.skip(at));
                    assert(text.skip(at).drop_first() =~= rest);
                    assert(current@ + rest =~= rest);
                }
            }
        } else {
            current.push(c);
            proof {
                assert(text[at] == c);
                assert(current@ + rest =~= run + text.skip(at));
            }
        }
    }
    let ghost done = tokens.deep_view();
    let ghost run = current@;
    proof {
        assert(text.skip(text.len() as int) =~= Seq::<char>::empty());
        assert(run + Seq::<char>::empty() =~= run);
    }
    if !current.as_str().is_empty() {
        tokens.push(current);
        proof {
            lemma_words_after_run(run, Seq::empty());
            assert(tokens.deep_view() =~= done.push(run));
            assert(done + (seq![run] + Seq::<Seq<char>>::empty()) =~= done.push(run));
        }
    } else {
        proof {
            assert(done + Seq::<Seq<char>>::empty() =~= done);
        }
    }
    tokens
}

} // verus!
