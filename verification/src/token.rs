//! Tokens: the whitespace-delimited atoms of a log line.

use vstd::prelude::*;

verus! {

/// Whether `c` separates tokens: the characters with the Unicode property
/// White_Space.
pub open spec fn is_space(c: char) -> bool {
    let n = c as u32;
    ||| 0x09 <= n <= 0x0d
    ||| n == 0x20
    ||| n == 0x85
    ||| n == 0xa0
    ||| n == 0x1680
    ||| 0x2000 <= n <= 0x200a
    ||| n == 0x2028
    ||| n == 0x2029
    ||| n == 0x202f
    ||| n == 0x205f
    ||| n == 0x3000
}

/// Whether `c` is one of the decimal digits `0` to `9`.
pub open spec fn is_digit(c: char) -> bool {
    0x30 <= c as u32 <= 0x39
}

/// A token contains a digit if one of its characters is a decimal digit.
pub open spec fn contains_digit(s: Seq<char>) -> bool {
    exists|i: int| 0 <= i < s.len() && is_digit(#[trigger] s[i])
}

/// The word in progress, as a sequence of zero or one tokens.
pub open spec fn flush(word: Seq<char>) -> Seq<Seq<char>> {
    if word.len() > 0 {
        seq![word]
    } else {
        Seq::empty()
    }
}

/// The tokens of `word` followed by `s[i..]`, where `word` is the part of a
/// token already read.
pub open spec fn tokens_from(s: Seq<char>, i: int, word: Seq<char>) -> Seq<Seq<char>>
    decreases s.len() - i,
{
    if i < 0 || i >= s.len() {
        flush(word)
    } else if is_space(s[i]) {
        flush(word) + tokens_from(s, i + 1, Seq::empty())
    } else {
        tokens_from(s, i + 1, word.push(s[i]))
    }
}

/// The tokens of a line: its maximal runs of characters that are not
/// whitespace, in the order in which they stand.
pub open spec fn tokens_of(line: Seq<char>) -> Seq<Seq<char>> {
    tokens_from(line, 0, Seq::empty())
}

/// The views of a vector of strings, one per string.
pub open spec fn views(v: Seq<String>) -> Seq<Seq<char>> {
    Seq::new(v.len(), |i: int| v[i]@)
}

/// A token is never empty and holds no whitespace.
pub open spec fn is_token(t: Seq<char>) -> bool {
    t.len() > 0 && forall|i: int| 0 <= i < t.len() ==> !is_space(#[trigger] t[i])
}

/// Whether `c` separates tokens.
pub fn is_whitespace(c: char) -> (r: bool)
    ensures
        r == is_space(c),
{
    let n: u32 = c as u32;
    (0x09 <= n && n <= 0x0d) || n == 0x20 || n == 0x85 || n == 0xa0 || n == 0x1680 || (0x2000 <= n
        && n <= 0x200a) || n == 0x2028 || n == 0x2029 || n == 0x202f || n == 0x205f || n == 0x3000
}

/// `String::push`: the character is appended to the string.
#[verifier::external_body]
pub(crate) fn push_char(s: &mut String, c: char)
    ensures
        final(s)@ == old(s)@.push(c),
{
    s.push(c)
}

/// Whether `s` contains a decimal digit.
pub fn has_number(s: &str) -> (r: bool)
    ensures
        r == contains_digit(s@),
{
    let mut found = false;
    for c in it: s.chars()
        invariant
            it.seq() == s@,
            found == exists|i: int| 0 <= i < it.index() && is_digit(#[trigger] s@[i]),
    {
        let n: u32 = c as u32;
        if 0x30 <= n && n <= 0x39 {
            found = true;
        }
    }
    found
}

/// The tokens of a line, in their order. Whitespace before the first
/// token, after the last and in any amount between two of them is left
/// out.
pub fn tokenize(log_message: &str) -> (tokens: Vec<String>)
    ensures
        views(tokens@) == tokens_of(log_message@),
        forall|i: int| 0 <= i < tokens.len() ==> is_token(#[trigger] tokens[i]@),
{
    let mut tokens: Vec<String> = Vec::new();
    let mut word = String::new();
    for c in it: log_message.chars()
        invariant
            it.seq() == log_message@,
            tokens_of(log_message@) == views(tokens@) + tokens_from(
                log_message@,
                it.index(),
                word@,
            ),
            forall|i: int| 0 <= i < tokens.len() ==> is_token(#[trigger] tokens[i]@),
            forall|i: int| 0 <= i < word@.len() ==> !is_space(#[trigger] word@[i]),
    {
        let ghost line = log_message@;
        let ghost i = it.index();
        let ghost before = views(tokens@);
        let ghost word_before = word@;
        assert(c == line[i]);
        if is_whitespace(c) {
            if !word.as_str().is_empty() {
                tokens.push(word);
                word = String::new();
                assert(views(tokens@) =~= before + flush(word_before));
            }
            assert(word@ =~= Seq::<char>::empty());
            assert(tokens_from(line, i, word_before) == flush(word_before) + tokens_from(
                line,
                i + 1,
                Seq::empty(),
            ));
            assert(views(tokens@) + tokens_from(line, i + 1, word@) =~= before + tokens_from(
                line,
                i,
                word_before,
            ));
        } else {
            push_char(&mut word, c);
        }
    }
    if !word.as_str().is_empty() {
        let ghost before = views(tokens@);
        tokens.push(word);
        assert(views(tokens@) =~= before + flush(tokens[tokens.len() - 1]@));
    }
    tokens
}

/// The tokens from a position on depend on what stands from there on
/// alone.
pub proof fn lemma_tokens_from_shift(s: Seq<char>, k: int, i: int, word: Seq<char>)
    requires
        0 <= k <= s.len(),
        0 <= i,
    ensures
        tokens_from(s, k + i, word) == tokens_from(s.skip(k), i, word),
    decreases s.len() - k - i,
{
    let rest = s.skip(k);
    if k + i < s.len() {
        assert(rest[i] == s[k + i]);
        if is_space(s[k + i]) {
            lemma_tokens_from_shift(s, k, i + 1, Seq::empty());
        } else {
            lemma_tokens_from_shift(s, k, i + 1, word.push(s[k + i]));
        }
    }
}

/// A space parts a line: the tokens of a line are the tokens before one
/// of its spaces followed by the tokens after it.
pub proof fn lemma_tokens_part_at_space(
    before: Seq<char>,
    after: Seq<char>,
    i: int,
    word: Seq<char>,
)
    requires
        0 <= i <= before.len(),
    ensures
        tokens_from(before + seq![' '] + after, i, word) == tokens_from(before, i, word)
            + tokens_of(after),
    decreases before.len() - i,
{
    let line = before + seq![' '] + after;
    if i < before.len() {
        assert(line[i] == before[i]);
        if is_space(before[i]) {
            lemma_tokens_part_at_space(before, after, i + 1, Seq::empty());
            assert(flush(word) + (tokens_from(before, i + 1, Seq::empty()) + tokens_of(after))
                =~= (flush(word) + tokens_from(before, i + 1, Seq::empty())) + tokens_of(after));
        } else {
            lemma_tokens_part_at_space(before, after, i + 1, word.push(before[i]));
        }
    } else {
        assert(line[i] == ' ');
        assert(line.skip(i + 1) =~= after);
        lemma_tokens_from_shift(line, i + 1, 0, Seq::empty());
    }
}

/// A run without whitespace is one token: read after the part `word` of
/// a token, what is left of it from `i` on completes that token.
pub proof fn lemma_tokens_of_run(run: Seq<char>, i: int, word: Seq<char>)
    requires
        0 <= i <= run.len(),
        forall|j: int| 0 <= j < run.len() ==> !is_space(#[trigger] run[j]),
    ensures
        tokens_from(run, i, word) == flush(word + run.skip(i)),
    decreases run.len() - i,
{
    if i < run.len() {
        lemma_tokens_of_run(run, i + 1, word.push(run[i]));
        assert(word.push(run[i]) + run.skip(i + 1) =~= word + run.skip(i));
    } else {
        assert(word + run.skip(i) =~= word);
    }
}

} // verus!
