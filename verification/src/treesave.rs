//! Dumping the text files of a directory tree into one listing: the limit on
//! its length, which files are read as text, and what each file adds.

use vstd::prelude::*;

use crate::paths::{extension, path_extension};
use crate::text::{char_vec, count_lines, line_count, lower_case, same_text, to_lowercase};

verus! {

/// Whether `c` is an ASCII decimal digit.
pub open spec fn is_digit(c: char) -> bool {
    '0' <= c && c <= '9'
}

/// The value of a sequence of decimal digits.
pub open spec fn decimal_value(s: Seq<char>) -> int
    decreases s.len(),
{
    if s.len() == 0 {
        0
    } else {
        decimal_value(s.drop_last()) * 10 + (s.last() as int - '0' as int)
    }
}

/// What `str::parse::<usize>` gives for `s`: an optional `+` sign followed
/// by at least one decimal digit and nothing else, whose value fits in a
/// `usize`.
pub open spec fn parse_usize_spec(s: Seq<char>) -> Option<usize> {
    parse_digits(unsigned_part(s))
}

/// `s` without its leading `+`, if it has one.
pub open spec fn unsigned_part(s: Seq<char>) -> Seq<char> {
    if s.len() > 0 && s[0] == '+' {
        s.skip(1)
    } else {
        s
    }
}

/// The value of `digits` where it is a non-empty run of decimal digits
/// whose value fits in a `usize`.
pub open spec fn parse_digits(digits: Seq<char>) -> Option<usize> {
    if digits.len() > 0 && (forall|i: int| 0 <= i < digits.len() ==> is_digit(#[trigger] digits[i]))
        && decimal_value(digits) <= usize::MAX {
        Some(decimal_value(digits) as usize)
    } else {
        None
    }
}

proof fn lemma_decimal_value_nonneg(s: Seq<char>)
    requires
        forall|i: int| 0 <= i < s.len() ==> is_digit(#[trigger] s[i]),
    ensures
        decimal_value(s) >= 0,
    decreases s.len(),
{
    if s.len() > 0 {
        assert(is_digit(s[s.len() - 1]));
        lemma_decimal_value_nonneg(s.drop_last());
    }
}

/// Parses `s` as a `usize`, as `str::parse::<usize>` does.
pub fn parse_usize(s: &str) -> (n: Option<usize>)
    ensures
        n == parse_usize_spec(s@),
{
    let chars = char_vec(s);
    let len = chars.len();
    let start: usize = if len > 0 && chars[0] == '+' {
        1
    } else {
        0
    };
    let ghost digits = unsigned_part(s@);
    assert(digits =~= chars@.subrange(start as int, len as int));
    if start == len {
        return None;
    }
    let mut value: usize = 0;
    let mut overflow = false;
    let mut i = start;
    while i < len
        invariant
            start <= i <= len == chars@.len(),
            chars@ == s@,
            digits == unsigned_part(s@),
            digits == chars@.subrange(start as int, len as int),
            forall|j: int| 0 <= j < i - start ==> is_digit(#[trigger] digits[j]),
            !overflow ==> value == decimal_value(digits.take(i - start)),
            overflow ==> decimal_value(digits.take(i - start)) > usize::MAX,
        decreases len - i,
    {
        let c = chars[i];
        let ghost k = i - start;
        assert(digits[k] == c);
        assert(digits.take(k + 1).drop_last() =~= digits.take(k));
        assert(digits.take(k + 1).last() == c);
        if !('0' <= c && c <= '9') {
            assert(!is_digit(digits[k]));
            return None;
        }
        let d = (c as u32 - '0' as u32) as usize;
        if !overflow {
            match value.checked_mul(10) {
                Some(tens) => match tens.checked_add(d) {
                    Some(v) => {
                        value = v;
                    },
                    None => {
                        overflow = true;
                    },
                },
                None => {
                    overflow = true;
                    proof {
                        lemma_decimal_value_nonneg_prefix(digits, k);
                    }
                },
            }
        } else {
            proof {
                lemma_decimal_value_nonneg_prefix(digits, k);
            }
        }
        i = i + 1;
    }
    assert(digits.take(len - start) =~= digits);
    if overflow {
        None
    } else {
        Some(value)
    }
}

proof fn lemma_decimal_value_nonneg_prefix(digits: Seq<char>, k: int)
    requires
        0 <= k < digits.len(),
        forall|j: int| 0 <= j <= k ==> is_digit(#[trigger] digits[j]),
    ensures
        decimal_value(digits.take(k)) >= 0,
{
    assert forall|j: int| 0 <= j < digits.take(k).len() implies is_digit(
        #[trigger] digits.take(k)[j],
    ) by {
        assert(digits.take(k)[j] == digits[j]);
    }
    lemma_decimal_value_nonneg(digits.take(k));
}

/// The limit words that mean "no limit", in lower case.
pub open spec fn means_unlimited(lower: Seq<char>) -> bool {
    lower == "infinity"@ || lower == "-1"@ || lower == "0"@
}

/// The line limit that `input` sets, given its lower-cased form `lower`:
/// none for `infinity`, `-1` and `0`, else the number that `input` is.
pub fn max_line_limit(input: &str, lower: &str) -> (limit: Option<usize>)
    ensures
        limit == if means_unlimited(lower@) {
            None
        } else {
            parse_usize_spec(input@)
        },
{
    if same_text(lower, "infinity") || same_text(lower, "-1") || same_text(lower, "0") {
        None
    } else {
        parse_usize(input)
    }
}

/// The line limit that the command-line value `input` sets.
pub fn parse_max_line(input: &str) -> (limit: Option<usize>)
    ensures
        limit == if means_unlimited(lower_case(input@)) {
            None
        } else {
            parse_usize_spec(input@)
        },
{
    let lower = to_lowercase(input);
    max_line_limit(input, lower.as_str())
}

/// The (lower-case) extensions of the files that are dumped as text.
pub open spec fn is_text_extension_spec(ext: Seq<char>) -> bool {
    ||| ext == "txt"@
    ||| ext == "json"@
    ||| ext == "md"@
    ||| ext == "rs"@
    ||| ext == "js"@
    ||| ext == "html"@
    ||| ext == "css"@
    ||| ext == "toml"@
    ||| ext == "yml"@
}

/// Whether the file at `path`, of `size` bytes, is dumped as text: an empty
/// file is; otherwise its lower-cased extension must be a text one.
pub open spec fn is_text_file_spec(path: Seq<char>, size: u64) -> bool {
    size == 0 || match extension(path) {
        Some(e) => is_text_extension_spec(lower_case(e)),
        None => false,
    }
}

/// Whether a lower-cased extension is one of the text extensions.
pub fn is_text_extension(ext: &str) -> (b: bool)
    ensures
        b == is_text_extension_spec(ext@),
{
    same_text(ext, "txt") || same_text(ext, "json") || same_text(ext, "md") || same_text(ext, "rs")
        || same_text(ext, "js") || same_text(ext, "html") || same_text(ext, "css") || same_text(
        ext,
        "toml",
    ) || same_text(ext, "yml")
}

/// Whether the file at `path`, whose length is `size` bytes, is dumped as
/// text. Paths are read as on Unix, with `/` as the only separator.
pub fn is_text_file(path: &str, size: u64) -> (b: bool)
    ensures
        b == is_text_file_spec(path@, size),
{
    if size == 0 {
        return true;
    }
    match path_extension(path) {
        Some(ext) => {
            let lower = to_lowercase(ext.as_str());
            is_text_extension(lower.as_str())
        },
        None => false,
    }
}

/// What stands in the listing for a file that is not dumped as text.
pub open spec fn binary_marker() -> Seq<char> {
    "[binary]"@
}

/// The content that stands for a file that is not read as text.
pub fn binary_placeholder() -> (s: String)
    ensures
        s@ == binary_marker(),
{
    String::from_str("[binary]")
}

/// Whether a file's text part is followed by a line feed: when it has
/// lines, or when it is empty.
pub open spec fn ends_with_break(content: Seq<char>) -> bool {
    line_count(content) > 0 || content.len() == 0
}

/// What the listing holds for the file at `path` with content `content`:
/// the path and a colon on a line, then either the marker for a file that is
/// not text followed by an empty line, or the content and a line feed.
pub open spec fn entry_text(path: Seq<char>, content: Seq<char>) -> Seq<char> {
    path + ":\n"@ + if content == binary_marker() {
        "[binary]\n\n"@
    } else if ends_with_break(content) {
        content + "\n"@
    } else {
        content
    }
}

/// The number of lines that the listing counts for a file with content
/// `content`: one for the path, then two for the marker, or the content's
/// lines and one for the line feed after them.
pub open spec fn entry_lines(content: Seq<char>) -> nat {
    1 + if content == binary_marker() {
        2nat
    } else if ends_with_break(content) {
        line_count(content) + 1
    } else {
        line_count(content)
    }
}

/// The state of a listing being written: how many lines it counts so far,
/// and the limit after which no further file is begun.
#[derive(Debug, Clone, Copy)]
pub struct Dump {
    pub line_count: usize,
    pub max_lines: Option<usize>,
}

/// Whether a listing in state `d` may begin another file.
pub open spec fn may_continue_spec(d: Dump) -> bool {
    match d.max_lines {
        Some(max) => d.line_count < max,
        None => true,
    }
}

/// Once a listing has reached its limit, adding a file's lines keeps it
/// there: the listing stops for good.
pub proof fn law_stop_is_final(d: Dump, content: Seq<char>)
    requires
        !may_continue_spec(d),
        d.line_count + entry_lines(content) <= usize::MAX,
    ensures
        !may_continue_spec(
            Dump { line_count: (d.line_count + entry_lines(content)) as usize, max_lines: d.max_lines },
        ),
{
}

impl Dump {
    /// A listing with no lines yet.
    pub fn new(max_lines: Option<usize>) -> (dump: Dump)
        ensures
            dump.line_count == 0,
            dump.max_lines == max_lines,
    {
        Dump { line_count: 0, max_lines }
    }

    /// Whether another file may be begun: not once the count has reached
    /// the limit.
    pub fn may_continue(&self) -> (go: bool)
        ensures
            go == may_continue_spec(*self),
    {
        match self.max_lines {
            Some(max) => self.line_count < max,
            None => true,
        }
    }

    /// The text that the file at `path` with content `content` adds to the
    /// listing; the count grows by the lines counted for it.
    pub fn add_file(&mut self, path: &str, content: &str) -> (text: String)
        requires
            old(self).line_count + entry_lines(content@) <= usize::MAX,
        ensures
            text@ == entry_text(path@, content@),
            final(self).line_count == old(self).line_count + entry_lines(content@),
            final(self).max_lines == old(self).max_lines,
    {
        let mut text = String::from_str(path);
        text.append(":\n");
        if same_text(content, "[binary]") {
            text.append("[binary]\n\n");
            self.line_count = self.line_count + 3;
        } else {
            text.append(content);
            let lines = count_lines(content);
            if lines > 0 || content.unicode_len() == 0 {
                text.append("\n");
                self.line_count = self.line_count + 1 + lines + 1;
            } else {
                self.line_count = self.line_count + 1 + lines;
            }
        }
        text
    }
}

/// The decimal digits of `n`, without leading zeros.
pub open spec fn decimal_digits(n: nat) -> Seq<char>
    decreases n,
{
    if n < 10 {
        seq![(n + '0' as nat) as char]
    } else {
        decimal_digits(n / 10).push(((n % 10) + '0' as nat) as char)
    }
}

proof fn lemma_decimal_digits(n: nat)
    ensures
        decimal_digits(n).len() > 0,
        forall|i: int| 0 <= i < decimal_digits(n).len() ==> is_digit(#[trigger] decimal_digits(n)[i]),
        decimal_value(decimal_digits(n)) == n,
    decreases n,
{
    if n < 10 {
        let c = (n + '0' as nat) as char;
        assert(c as int == n + '0' as int);
        let one = seq![c];
        assert(decimal_digits(n) == one);
        assert(one.drop_last() =~= Seq::<char>::empty());
        assert(one.last() == c);
        assert(decimal_value(Seq::<char>::empty()) == 0);
        assert(decimal_value(one) == decimal_value(one.drop_last()) * 10 + (c as int - '0' as int));
    }
    if n >= 10 {
        lemma_decimal_digits(n / 10);
        let d = decimal_digits(n / 10);
        let c = ((n % 10) + '0' as nat) as char;
        assert(d.push(c).drop_last() =~= d);
        assert(c as int == (n % 10) + '0' as int);
        assert((n / 10) * 10 + n % 10 == n);
        assert(decimal_digits(n) == d.push(c));
        assert(d.push(c).last() == c);
        assert(decimal_value(d.push(c)) == decimal_value(d) * 10 + (c as int - '0' as int));
        assert(is_digit(c));
        assert forall|i: int| 0 <= i < d.push(c).len() implies is_digit(#[trigger] d.push(c)[i]) by {
            if i < d.len() {
                assert(d.push(c)[i] == d[i]);
            }
        }
    }
}

/// Reading back the decimal form of a number gives the number.
pub proof fn law_parse_decimal_round_trip(n: usize)
    ensures
        parse_usize_spec(decimal_digits(n as nat)) == Some(n),
{
    lemma_decimal_digits(n as nat);
    let d = decimal_digits(n as nat);
    assert(is_digit(d[0]));
    assert(unsigned_part(d) == d);
}

/// A `+` sign before digits does not change the number read.
pub proof fn law_parse_plus_sign(s: Seq<char>)
    requires
        s.len() > 0,
        s[0] != '+',
    ensures
        parse_usize_spec(seq!['+'] + s) == parse_usize_spec(s),
{
    assert((seq!['+'] + s).skip(1) =~= s);
}

/// Every text entry of a listing is followed by a line feed: a text either
/// has lines or is empty.
pub proof fn law_text_entries_end_with_break(content: Seq<char>)
    ensures
        ends_with_break(content),
        content != binary_marker() ==> entry_lines(content) == line_count(content) + 2,
{
    crate::text::law_no_lines_iff_empty(content);
}

/// Each file begun adds at least the line that names it.
pub proof fn law_entry_adds_a_line(content: Seq<char>)
    ensures
        entry_lines(content) >= 1,
{
}

/// Whatever the listing reads as text, the analyzer reads as text too.
pub proof fn law_dumped_files_are_analyzed(path: Seq<char>, size: u64)
    ensures
        is_text_file_spec(path, size) ==> crate::analyzer::is_text_file_spec(path, size),
{
}

/// The decimal form of `t`, with a `-` sign where it is negative.
pub open spec fn signed_decimal(t: int) -> Seq<char> {
    if t < 0 {
        seq!['-'] + decimal_digits((-t) as nat)
    } else {
        decimal_digits(t as nat)
    }
}

/// The decimal digits of `n`.
pub fn decimal_string(n: u64) -> (s: String)
    ensures
        s@ == decimal_digits(n as nat),
{
    let mut acc: Vec<char> = Vec::new();
    let mut m = n;
    while m >= 10
        invariant
            decimal_digits(n as nat) == decimal_digits(m as nat) + acc@,
        decreases m,
    {
        let d = (m % 10) as u32;
        let c = char_of_digit(d);
        let ghost before = acc@;
        acc.insert(0, c);
        assert(decimal_digits(m as nat) == decimal_digits((m / 10) as nat).push(c));
        assert(acc@ =~= seq![c] + before);
        assert(decimal_digits((m / 10) as nat).push(c) + before =~= decimal_digits(
            (m / 10) as nat,
        ) + acc@);
        m = m / 10;
    }
    let c = char_of_digit(m as u32);
    let ghost before = acc@;
    acc.insert(0, c);
    assert(acc@ =~= seq![c] + before);
    assert(decimal_digits(m as nat) == seq![c]);
    let len = acc.len();
    crate::paths::string_of(&acc, 0, len)
}

/// The character of the decimal digit `d`.
fn char_of_digit(d: u32) -> (c: char)
    requires
        d < 10,
    ensures
        c == ((d as nat) + '0' as nat) as char,
{
    if d == 0 {
        '0'
    } else if d == 1 {
        '1'
    } else if d == 2 {
        '2'
    } else if d == 3 {
        '3'
    } else if d == 4 {
        '4'
    } else if d == 5 {
        '5'
    } else if d == 6 {
        '6'
    } else if d == 7 {
        '7'
    } else if d == 8 {
        '8'
    } else {
        '9'
    }
}

/// The name of the listing written at `timestamp_millis` milliseconds
/// since the Unix epoch.
pub fn output_file_name(timestamp_millis: i64) -> (name: String)
    ensures
        name@ == "treesave."@ + signed_decimal(timestamp_millis as int) + ".txt"@,
{
    let mut name = String::from_str("treesave.");
    if timestamp_millis < 0 {
        name.append("-");
        let magnitude: u64 = ((-(timestamp_millis + 1)) as u64) + 1;
        let digits = decimal_string(magnitude);
        name.append(digits.as_str());
        proof {
            reveal_strlit("-");
            assert(magnitude as int == -(timestamp_millis as int));
            assert(name@ =~= "treesave."@ + signed_decimal(timestamp_millis as int));
        }
    } else {
        let digits = decimal_string(timestamp_millis as u64);
        name.append(digits.as_str());
    }
    name.append(".txt");
    name
}

/// The files dumped as text are exactly the empty ones and those whose
/// lower-cased extension is one of txt, json, md, rs, js, html, css, toml
/// and yml.
pub proof fn law_text_extensions(path: Seq<char>, size: u64)
    ensures
        is_text_extension_spec("txt"@),
        is_text_extension_spec("json"@),
        is_text_extension_spec("md"@),
        is_text_extension_spec("rs"@),
        is_text_extension_spec("js"@),
        is_text_extension_spec("html"@),
        is_text_extension_spec("css"@),
        is_text_extension_spec("toml"@),
        is_text_extension_spec("yml"@),
        size == 0 ==> is_text_file_spec(path, size),
        size > 0 ==> (is_text_file_spec(path, size) <==> match extension(path) {
            Some(e) => lower_case(e) == "txt"@ || lower_case(e) == "json"@ || lower_case(e) == "md"@ || lower_case(e) == "rs"@ || lower_case(e) == "js"@ || lower_case(e) == "html"@ || lower_case(e) == "css"@ || lower_case(e) == "toml"@ || lower_case(e) == "yml"@,
            None => false,
        }),
{
}

/// A listing without a limit may always begin another file; with a limit
/// it may exactly while its count is below the limit.
pub proof fn law_limit(n: usize, max: usize)
    ensures
        may_continue_spec(Dump { line_count: n, max_lines: None }),
        may_continue_spec(Dump { line_count: n, max_lines: Some(max) }) <==> n < max,
{
}

/// The words that lift the limit are exactly `infinity`, `-1` and `0`.
pub proof fn law_unlimited_words(lower: Seq<char>)
    ensures
        means_unlimited(lower) <==> (lower == "infinity"@ || lower == "-1"@ || lower == "0"@),
{
}

/// What a file adds to the listing: a line with its path and a colon, then
/// either `[binary]` and an empty line (three lines counted), or its content
/// and a line feed (its lines and two more counted).
pub proof fn law_entry_shape(path: Seq<char>, content: Seq<char>)
    ensures
        content == "[binary]"@ ==> entry_text(path, content) == path + ":\n"@ + "[binary]\n\n"@
            && entry_lines(content) == 3,
        content != "[binary]"@ ==> entry_text(path, content) == path + ":\n"@ + content + "\n"@
            && entry_lines(content) == line_count(content) + 2,
{
    crate::text::law_no_lines_iff_empty(content);
}

} // verus!
