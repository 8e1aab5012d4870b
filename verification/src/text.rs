//! Characters, words and lines of a text.
//!
//! A word is a maximal run of characters that are not white space, as
//! `str::split_whitespace` yields them; a line is what `str::lines` yields.

use vstd::prelude::*;

verus! {

/// The characters with the Unicode `White_Space` property, which is what
/// `char::is_whitespace` tests.
pub open spec fn is_white_space(c: char) -> bool {
    ||| ('\u{9}' <= c && c <= '\u{d}')
    ||| c == ' '
    ||| c == '\u{85}'
    ||| c == '\u{a0}'
    ||| c == '\u{1680}'
    ||| ('\u{2000}' <= c && c <= '\u{200a}')
    ||| c == '\u{2028}'
    ||| c == '\u{2029}'
    ||| c == '\u{202f}'
    ||| c == '\u{205f}'
    ||| c == '\u{3000}'
}

/// Whether `c` is white space.
pub fn is_white_space_char(c: char) -> (b: bool)
    ensures
        b == is_white_space(c),
{
    ('\u{9}' <= c && c <= '\u{d}') || c == ' ' || c == '\u{85}' || c == '\u{a0}' || c == '\u{1680}'
        || ('\u{2000}' <= c && c <= '\u{200a}') || c == '\u{2028}' || c == '\u{2029}' || c
        == '\u{202f}' || c == '\u{205f}' || c == '\u{3000}'
}

/// The words of `s`: its maximal runs of characters that are not white
/// space, in order. Read from the left, a character that is not white space
/// either extends the word that the previous character belongs to or, after
/// white space or at the start, begins a new word.
pub open spec fn words(s: Seq<char>) -> Seq<Seq<char>>
    decreases s.len(),
{
    if s.len() == 0 {
        seq![]
    } else {
        let before = words(s.drop_last());
        let c = s.last();
        if is_white_space(c) {
            before
        } else if s.len() >= 2 && !is_white_space(s[s.len() - 2]) {
            before.drop_last().push(before.last().push(c))
        } else {
            before.push(seq![c])
        }
    }
}

/// A text that ends in a character other than white space has a last word,
/// and that word ends with that character.
pub proof fn lemma_words_last(s: Seq<char>)
    requires
        s.len() > 0,
        !is_white_space(s.last()),
    ensures
        words(s).len() > 0,
        words(s).last().len() > 0,
        words(s).last().last() == s.last(),
    decreases s.len(),
{
    if s.len() >= 2 && !is_white_space(s[s.len() - 2]) {
        lemma_words_last(s.drop_last());
    }
}

/// Every word is non-empty and holds no white space.
pub proof fn law_words_hold_no_white_space(s: Seq<char>)
    ensures
        forall|i: int|
            0 <= i < words(s).len() ==> {
                &&& #[trigger] words(s)[i].len() > 0
                &&& forall|j: int|
                    0 <= j < words(s)[i].len() ==> !is_white_space(#[trigger] words(s)[i][j])
            },
    decreases s.len(),
{
    if s.len() > 0 {
        law_words_hold_no_white_space(s.drop_last());
        if s.len() >= 2 && !is_white_space(s[s.len() - 2]) {
            lemma_words_last(s.drop_last());
        }
    }
}

/// The number of words of `content`, counted as `str::split_whitespace`
/// counts them.
pub fn count_words(content: &str) -> (n: usize)
    ensures
        n == words(content@).len(),
{
    let ghost s = content@;
    let total = content.unicode_len();
    let mut n: usize = 0;
    let mut in_word = false;
    for c in it: content.chars()
        invariant
            it.seq() == s,
            n == words(s.take(it.index() as int)).len(),
            n <= it.index(),
            total == s.len(),
            in_word == (it.index() > 0 && !is_white_space(s[it.index() - 1])),
    {
        let ghost i = it.index() as int;
        assert(s.take(i + 1).drop_last() =~= s.take(i));
        let ws = is_white_space_char(c);
        if !ws && !in_word {
            n = n + 1;
        }
        in_word = !ws;
    }
    assert(s.take(s.len() as int) =~= s);
    n
}

/// The characters of `s`, in order.
pub fn char_vec(s: &str) -> (chars: Vec<char>)
    ensures
        chars@ == s@,
{
    let mut chars: Vec<char> = Vec::new();
    for c in it: s.chars()
        invariant
            chars@ == it.seq().take(it.index() as int),
            it.seq() == s@,
    {
        chars.push(c);
    }
    chars
}

/// Whether `a` and `b` hold the same characters.
pub fn same_text(a: &str, b: &str) -> (same: bool)
    ensures
        same == (a@ == b@),
{
    let x = char_vec(a);
    let y = char_vec(b);
    if x.len() != y.len() {
        return false;
    }
    let n = x.len();
    for i in 0..n
        invariant
            n == x@.len() == y@.len(),
            x@ == a@,
            y@ == b@,
            forall|j: int| 0 <= j < i ==> x@[j] == y@[j],
    {
        if x[i] != y[i] {
            assert(x@[i as int] != y@[i as int]);
            return false;
        }
    }
    assert(x@ =~= y@);
    true
}

/// The views of a sequence of strings.
pub open spec fn string_views(v: Seq<String>) -> Seq<Seq<char>> {
    v.map_values(|w: String| w@)
}

/// `String::push`: appends the character `c` to `s`. The contract claims
/// that the new text is the old one followed by `c`, as the documentation of
/// `String::push` says.
#[verifier::external_body]
pub(crate) fn push_char(s: &mut String, c: char)
    ensures
        final(s)@ == old(s)@.push(c),
{
    s.push(c);
}

/// The words of `content`, in order, as `str::split_whitespace` yields them.
pub fn split_words(content: &str) -> (out: Vec<String>)
    ensures
        string_views(out@) == words(content@),
{
    let ghost s = content@;
    let mut out: Vec<String> = Vec::new();
    let mut cur = String::new();
    let mut in_word = false;
    for c in it: content.chars()
        invariant
            it.seq() == s,
            in_word == (it.index() > 0 && !is_white_space(s[it.index() - 1])),
            in_word ==> words(s.take(it.index() as int)) == string_views(out@).push(cur@),
            !in_word ==> words(s.take(it.index() as int)) == string_views(out@),
            !in_word ==> cur@ == Seq::<char>::empty(),
    {
        let ghost i = it.index() as int;
        let ghost before = s.take(i);
        assert(s.take(i + 1).drop_last() =~= before);
        let ws = is_white_space_char(c);
        if ws {
            if in_word {
                let ghost prev = out@;
                let ghost w = cur@;
                out.push(cur);
                cur = String::new();
                assert(string_views(out@) =~= string_views(prev).push(w));
            }
        } else {
            push_char(&mut cur, c);
        }
        in_word = !ws;
    }
    if in_word {
        out.push(cur);
    }
    assert(s.take(s.len() as int) =~= s);
    out
}

/// The number of line feeds in `s`.
pub open spec fn newline_count(s: Seq<char>) -> nat
    decreases s.len(),
{
    if s.len() == 0 {
        0
    } else {
        newline_count(s.drop_last()) + if s.last() == '\n' { 1nat } else { 0nat }
    }
}

/// The number of lines of `s`, as `str::lines` yields them: each line feed
/// ends a line, and text after the last line feed forms one more line.
/// (A carriage return before a line feed belongs to the line ending and
/// does not change the count.)
pub open spec fn line_count(s: Seq<char>) -> nat {
    newline_count(s) + if s.len() > 0 && s.last() != '\n' { 1nat } else { 0nat }
}

/// The number of lines of `content`.
pub fn count_lines(content: &str) -> (n: usize)
    ensures
        n == line_count(content@),
{
    let ghost s = content@;
    let total = content.unicode_len();
    let mut newlines: usize = 0;
    let mut last_is_newline = true;
    for c in it: content.chars()
        invariant
            it.seq() == s,
            total == s.len(),
            newlines == newline_count(s.take(it.index() as int)),
            newlines <= it.index(),
            !last_is_newline ==> newlines < it.index(),
            last_is_newline == (it.index() == 0 || s[it.index() - 1] == '\n'),
    {
        let ghost i = it.index() as int;
        assert(s.take(i + 1).drop_last() =~= s.take(i));
        if c == '\n' {
            newlines = newlines + 1;
            last_is_newline = true;
        } else {
            last_is_newline = false;
        }
    }
    assert(s.take(s.len() as int) =~= s);
    if last_is_newline {
        newlines
    } else {
        newlines + 1
    }
}

/// The number of characters of `content`.
pub fn count_chars(content: &str) -> (n: usize)
    ensures
        n == content@.len(),
{
    content.unicode_len()
}

/// What `str::to_lowercase` returns for a text. The full Unicode lower-case
/// mapping, with its context rules, is left unstated.
pub uninterp spec fn lowercase_of(s: Seq<char>) -> Seq<char>;

/// Whether every character of `s` is ASCII.
pub open spec fn is_ascii_text(s: Seq<char>) -> bool {
    forall|i: int| 0 <= i < s.len() ==> #[trigger] s[i] <= '\u{7f}'
}

/// The lower-case form of an ASCII character: `A` to `Z` become `a` to `z`,
/// every other character stays.
pub open spec fn ascii_lower(c: char) -> char {
    if 'A' <= c && c <= 'Z' {
        (c as u32 + 32) as char
    } else {
        c
    }
}

/// The lower-case form of a text, as `str::to_lowercase` gives it: for ASCII
/// text, each letter lower-cased in place; otherwise the full Unicode
/// mapping, which is left unstated.
pub open spec fn lower_case(s: Seq<char>) -> Seq<char> {
    if is_ascii_text(s) {
        s.map_values(|c: char| ascii_lower(c))
    } else {
        lowercase_of(s)
    }
}

/// `str::to_lowercase`: the lower-case form of `s`, a function of `s`
/// alone. For ASCII text the contract states the form (`A` to `Z` become
/// `a` to `z`, every other character stays, as Unicode's lower-case mapping
/// gives for ASCII); for other text it is only named.
#[verifier::external_body]
pub(crate) fn to_lowercase(s: &str) -> (lower: String)
    ensures
        lower@ == lowercase_of(s@),
        is_ascii_text(s@) ==> lower@ == s@.map_values(|c: char| ascii_lower(c)),
{
    s.to_lowercase()
}

/// A text has no lines exactly when it is empty.
pub proof fn law_no_lines_iff_empty(s: Seq<char>)
    ensures
        (line_count(s) == 0) <==> (s.len() == 0),
{
    if s.len() > 0 && s.last() == '\n' {
        assert(newline_count(s) >= 1);
    }
}

/// A final line ending, `\n` or `\r\n`, adds no line: a text that ends
/// with one has the lines of the same text without it.
pub proof fn law_final_line_ending(s: Seq<char>)
    requires
        s.len() > 0,
        s.last() != '\n',
    ensures
        line_count(s.push('\n')) == line_count(s),
        line_count(s.push('\r').push('\n')) == line_count(s.push('\n')),
{
    assert(s.push('\n').drop_last() =~= s);
    assert(s.push('\r').push('\n').drop_last() =~= s.push('\r'));
    assert(s.push('\r').drop_last() =~= s);
    assert(s.push('\r').last() != '\n');
    assert(newline_count(s.push('\r')) == newline_count(s));
    assert(newline_count(s.push('\r').push('\n')) == newline_count(s) + 1);
    assert(newline_count(s.push('\n')) == newline_count(s) + 1);
}

/// White space separates words: the words of `a`, a white-space character
/// and `b` are the words of `a` followed by those of `b`.
pub proof fn law_words_concat(a: Seq<char>, c: char, b: Seq<char>)
    requires
        is_white_space(c),
    ensures
        words(a.push(c) + b) == words(a) + words(b),
    decreases b.len(),
{
    let t = a.push(c);
    assert(t.drop_last() =~= a);
    if b.len() == 0 {
        assert(t + b =~= t);
        assert(words(b) =~= Seq::<Seq<char>>::empty());
        assert(words(a) + words(b) =~= words(a));
    } else {
        let b1 = b.drop_last();
        let x = b.last();
        law_words_concat(a, c, b1);
        let s = t + b;
        assert(s.drop_last() =~= t + b1);
        assert(s.last() == x);
        if is_white_space(x) {
        } else {
            let extend_s = s.len() >= 2 && !is_white_space(s[s.len() - 2]);
            let extend_b = b.len() >= 2 && !is_white_space(b[b.len() - 2]);
            if b.len() >= 2 {
                assert(s[s.len() - 2] == b[b.len() - 2]);
            } else {
                assert(s[s.len() - 2] == c);
            }
            assert(extend_s == extend_b);
            if extend_b {
                lemma_words_last(b1);
                assert((words(a) + words(b1)).drop_last() =~= words(a) + words(b1).drop_last());
                assert((words(a) + words(b1)).last() == words(b1).last());
                assert(words(a) + words(b1).drop_last().push(words(b1).last().push(x)) =~= (words(
                    a,
                ) + words(b1).drop_last()).push(words(b1).last().push(x)));
            } else {
                assert(words(a) + words(b1).push(seq![x]) =~= (words(a) + words(b1)).push(
                    seq![x],
                ));
            }
        }
    }
}

/// A text has no more words, and no more lines, than characters.
pub proof fn law_counts_bounded(s: Seq<char>)
    ensures
        words(s).len() <= s.len(),
        line_count(s) <= s.len(),
    decreases s.len(),
{
    if s.len() > 0 {
        law_counts_bounded(s.drop_last());
        lemma_newlines_bounded(s);
    }
}

proof fn lemma_newlines_bounded(s: Seq<char>)
    ensures
        newline_count(s) <= s.len(),
        s.len() > 0 && s.last() != '\n' ==> newline_count(s) < s.len(),
    decreases s.len(),
{
    if s.len() > 0 {
        lemma_newlines_bounded(s.drop_last());
    }
}

/// A non-empty run of characters none of which is white space is exactly
/// one word.
pub proof fn law_single_word(s: Seq<char>)
    requires
        s.len() > 0,
        forall|i: int| 0 <= i < s.len() ==> !is_white_space(#[trigger] s[i]),
    ensures
        words(s) == seq![s],
    decreases s.len(),
{
    if s.len() == 1 {
        assert(s.drop_last() =~= Seq::<char>::empty());
        assert(seq![s.last()] =~= s);
        assert(words(s.drop_last()).len() == 0);
        assert(words(s.drop_last()) =~= Seq::<Seq<char>>::empty());
        assert(words(s) =~= Seq::<Seq<char>>::empty().push(seq![s.last()]));
    } else {
        let t = s.drop_last();
        assert forall|i: int| 0 <= i < t.len() implies !is_white_space(#[trigger] t[i]) by {
            assert(t[i] == s[i]);
        }
        law_single_word(t);
        assert(!is_white_space(s[s.len() - 2]));
        assert(!is_white_space(s.last()));
        assert(t.push(s.last()) =~= s);
        assert(words(t).drop_last().push(words(t).last().push(s.last())) =~= seq![s]);
    }
}

/// Lower-casing ASCII text keeps its length and turns each of `A` to `Z`
/// into the matching one of `a` to `z`, leaving every other character.
pub proof fn law_ascii_lower_case(s: Seq<char>)
    requires
        is_ascii_text(s),
    ensures
        lower_case(s).len() == s.len(),
        forall|i: int|
            0 <= i < s.len() ==> {
                &&& ('A' <= s[i] && s[i] <= 'Z') ==> #[trigger] lower_case(s)[i] as u32 == s[i] as u32 + 32
                &&& !('A' <= s[i] && s[i] <= 'Z') ==> lower_case(s)[i] == s[i]
            },
{
}

proof fn lemma_newlines_concat(x: Seq<char>, y: Seq<char>)
    ensures
        newline_count(x + y) == newline_count(x) + newline_count(y),
    decreases y.len(),
{
    if y.len() == 0 {
        assert(x + y =~= x);
    } else {
        lemma_newlines_concat(x, y.drop_last());
        assert((x + y).drop_last() =~= x + y.drop_last());
        assert((x + y).last() == y.last());
    }
}

/// Lines add up across a line feed: the lines of `a`, a line feed and `b`
/// are those of `a` with its line feed, then those of `b`; and a non-empty
/// text without a line feed is one line.
pub proof fn law_lines_concat(a: Seq<char>, b: Seq<char>)
    ensures
        line_count(a.push('\n') + b) == line_count(a.push('\n')) + line_count(b),
        (b.len() > 0 && forall|i: int| 0 <= i < b.len() ==> #[trigger] b[i] != '\n') ==> line_count(
            b,
        ) == 1,
    decreases b.len(),
{
    lemma_newlines_concat(a.push('\n'), b);
    if b.len() == 0 {
        assert(a.push('\n') + b =~= a.push('\n'));
    } else {
        assert((a.push('\n') + b).last() == b.last());
    }
    if b.len() > 0 && forall|i: int| 0 <= i < b.len() ==> #[trigger] b[i] != '\n' {
        lemma_no_newlines(b);
    }
}

proof fn lemma_no_newlines(b: Seq<char>)
    requires
        forall|i: int| 0 <= i < b.len() ==> #[trigger] b[i] != '\n',
    ensures
        newline_count(b) == 0,
    decreases b.len(),
{
    if b.len() > 0 {
        assert forall|i: int| 0 <= i < b.drop_last().len() implies #[trigger] b.drop_last()[i]
            != '\n' by {
            assert(b.drop_last()[i] == b[i]);
        }
        lemma_no_newlines(b.drop_last());
    }
}

/// Among ASCII characters, the white space is exactly the space, tab, line
/// feed, vertical tab, form feed and carriage return; no letter or digit is
/// white space.
pub proof fn law_ascii_white_space(c: char)
    requires
        c <= '\u{7f}',
    ensures
        is_white_space(c) <==> (c == ' ' || c == '\t' || c == '\n' || c == '\u{b}' || c == '\u{c}'
            || c == '\r'),
{
}

} // verus!
