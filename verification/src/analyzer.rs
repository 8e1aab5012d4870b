//! Statistics of the files under a path, and the lookups answered from them.

use vstd::prelude::*;
use vstd::multiset::Multiset;

use crate::index::WordIndex;
use crate::frequency::{frequency_of, lowercase_all, word_frequency, WordFrequency};
use crate::paths::{extension, path_extension};
use crate::text::{
    count_chars, count_lines, count_words, line_count, lower_case, same_text, to_lowercase,
    words,
};

verus! {

/// The statistics of one file.
#[derive(Debug)]
pub struct FileStats {
    pub path: String,
    pub word_count: usize,
    pub line_count: usize,
    pub char_count: usize,
    pub unique_words: usize,
    pub word_frequency: WordFrequency,
}

/// The statistics of all files under a path, with the number of distinct
/// (lower-cased) words over all of them.
#[derive(Debug)]
pub struct Analysis {
    pub files: Vec<FileStats>,
    pub total_unique_words: usize,
}

/// `stats` describes the text file at `path` whose content is `content`.
pub open spec fn describes_text(stats: FileStats, path: Seq<char>, content: Seq<char>) -> bool {
    &&& stats.path@ == path
    &&& stats.word_count == words(content).len()
    &&& stats.line_count == line_count(content)
    &&& stats.char_count == content.len()
    &&& stats.word_frequency@ == frequency_of(lowercase_all(words(content)))
    &&& stats.unique_words == stats.word_frequency@.dom().len()
}

/// `stats` describes the file at `path` that is not read as text: all its
/// counts are zero and its frequency table is empty.
pub open spec fn describes_binary(stats: FileStats, path: Seq<char>) -> bool {
    &&& stats.path@ == path
    &&& stats.word_count == 0
    &&& stats.line_count == 0
    &&& stats.char_count == 0
    &&& stats.unique_words == 0
    &&& stats.word_frequency@ == Map::<Seq<char>, nat>::empty()
}

/// The (lower-case) extensions of the files that are analyzed as text.
pub open spec fn is_text_extension_spec(ext: Seq<char>) -> bool {
    ||| ext == "txt"@
    ||| ext == "json"@
    ||| ext == "md"@
    ||| ext == "rs"@
    ||| ext == "py"@
    ||| ext == "js"@
    ||| ext == "html"@
    ||| ext == "css"@
    ||| ext == "xml"@
    ||| ext == "csv"@
    ||| ext == "toml"@
    ||| ext == "yaml"@
    ||| ext == "yml"@
}

/// Whether the file at `path`, of `size` bytes, is analyzed as text: an
/// empty file is; otherwise its lower-cased extension must be a text one.
pub open spec fn is_text_file_spec(path: Seq<char>, size: u64) -> bool {
    size == 0 || match extension(path) {
        Some(e) => is_text_extension_spec(lower_case(e)),
        None => false,
    }
}

/// Whether a lower-cased extension is one of the text extensions.
pub fn is_text_extension(ext: &str) -> (b: bool)
    ensures
        b == is_text_extension_spec(ext@),
{
    same_text(ext, "txt") || same_text(ext, "json") || same_text(ext, "md") || same_text(ext, "rs")
        || same_text(ext, "py") || same_text(ext, "js") || same_text(ext, "html") || same_text(
        ext,
        "css",
    ) || same_text(ext, "xml") || same_text(ext, "csv") || same_text(ext, "toml") || same_text(
        ext,
        "yaml",
    ) || same_text(ext, "yml")
}

/// Whether the file at `path`, whose length is `size` bytes, is read as text.
/// Paths are read as on Unix, with `/` as the only separator.
pub fn is_text_file(path: &str, size: u64) -> (b: bool)
    ensures
        b == is_text_file_spec(path@, size),
{
    if size == 0 {
        return true;
    }
    match path_extension(path) {
        Some(ext) => {
            let lower = to_lowercase(ext.as_str());
            is_text_extension(lower.as_str())
        },
        None => false,
    }
}

/// The statistics of the file at `path`: `Some(content)` for a file read as
/// text, `None` for one that is not.
pub fn analyze_file(path: &str, content: Option<&str>) -> (stats: FileStats)
    ensures
        match content {
            Some(c) => describes_text(stats, path@, c@),
            None => describes_binary(stats, path@),
        },
{
    match content {
        Some(c) => {
            let word_frequency = word_frequency(c);
            let unique_words = word_frequency.len();
            FileStats {
                path: String::from_str(path),
                word_count: count_words(c),
                line_count: count_lines(c),
                char_count: count_chars(c),
                unique_words,
                word_frequency,
            }
        },
        None => FileStats {
            path: String::from_str(path),
            word_count: 0,
            line_count: 0,
            char_count: 0,
            unique_words: 0,
            word_frequency: WordFrequency::new(),
        },
    }
}

/// How often the lower-cased `word` occurs in the file of `stats`, or `None`
/// where it does not occur.
pub fn find_word(stats: &FileStats, word: &str) -> (count: Option<usize>)
    ensures
        match count {
            Some(c) => stats.word_frequency@.contains_key(lower_case(word@))
                && stats.word_frequency@[lower_case(word@)] == c,
            None => !stats.word_frequency@.contains_key(lower_case(word@)),
        },
{
    let lower = to_lowercase(word);
    stats.word_frequency.get(lower.as_str())
}

/// The distinct words of all the files' frequency tables.
pub open spec fn words_of_files(files: Seq<FileStats>) -> Set<Seq<char>>
    decreases files.len(),
{
    if files.len() == 0 {
        Set::empty()
    } else {
        words_of_files(files.drop_last()).union(files.last().word_frequency@.dom())
    }
}

impl Analysis {
    /// The analysis of `files`: the files in their order, and the number of
    /// distinct words over all of them.
    pub fn from_files(files: Vec<FileStats>) -> (analysis: Analysis)
        ensures
            analysis.files@ == files@,
            words_of_files(files@).finite(),
            analysis.total_unique_words == words_of_files(files@).len(),
    {
        let mut seen: Vec<String> = Vec::new();
        let mut index = WordIndex::new();
        assert(crate::text::string_views(seen@) =~= Seq::<Seq<char>>::empty());
        let n = files.len();
        for f in 0..n
            invariant
                n == files@.len(),
                index.indexes(crate::text::string_views(seen@)),
                crate::text::string_views(seen@).no_duplicates(),
                crate::text::string_views(seen@).to_set() == words_of_files(files@.take(f as int)),
        {
            let table = &files[f].word_frequency;
            let m = table.len();
            let ghost before = words_of_files(files@.take(f as int));
            assert(files@.take(f + 1).drop_last() =~= files@.take(f as int));
            for i in 0..m
                invariant
                    n == files@.len(),
                    f < n,
                    table == files@[f as int].word_frequency,
                    m == table.keys_view().len(),
                    table.keys_view().no_duplicates(),
                    forall|k: Seq<char>| table@.contains_key(k) <==> table.keys_view().contains(k),
                    index.indexes(crate::text::string_views(seen@)),
                    crate::text::string_views(seen@).no_duplicates(),
                    crate::text::string_views(seen@).to_set() == before.union(
                        table.keys_view().take(i as int).to_set(),
                    ),
            {
                let w = table.word(i);
                let ghost old_seen = crate::text::string_views(seen@);
                assert(table.keys_view().take(i + 1) =~= table.keys_view().take(i as int).push(
                    w@,
                ));
                if index.find(&seen, w.as_str()).is_none() {
                    seen.push(w.clone());
                    assert(crate::text::string_views(seen@) =~= old_seen.push(w@));
                    assert(crate::text::string_views(seen@).drop_last() =~= old_seen);
                    index.add_last(&seen);
                    proof {
                        old_seen.lemma_push_to_set_commute(w@);
                    }
                } else {
                    assert(old_seen.contains(w@));
                    assert(old_seen.to_set().contains(w@));
                }
                proof {
                    table.keys_view().take(i as int).lemma_push_to_set_commute(w@);
                }
            }
            assert(table.keys_view().take(m as int) =~= table.keys_view());
            assert(table.keys_view().to_set() =~= table@.dom());
        }
        assert(files@.take(n as int) =~= files@);
        proof {
            crate::text::string_views(seen@).unique_seq_to_set();
        }
        let total = seen.len();
        Analysis { files, total_unique_words: total }
    }
}

/// The position of the first file of `files` whose path is `path`.
pub open spec fn first_with_path(files: Seq<FileStats>, path: Seq<char>) -> Option<int>
    decreases files.len(),
{
    if files.len() == 0 {
        None
    } else {
        match first_with_path(files.drop_last(), path) {
            Some(i) => Some(i),
            None => if files.last().path@ == path {
                Some(files.len() - 1)
            } else {
                None
            },
        }
    }
}

/// The answer to a search for a word in one file of an analysis.
#[derive(Debug, Clone, Copy, PartialEq, Eq)]
pub enum SearchOutcome {
    /// The file is there and holds the word this many times.
    Found(usize),
    /// The file is there and does not hold the word.
    WordNotFound,
    /// No file of the analysis has the path searched for.
    FileNotFound,
}

/// Searches the first file of `analysis` whose path is `path` for `word`,
/// compared in lower case.
pub fn search_word(analysis: &Analysis, path: &str, word: &str) -> (outcome: SearchOutcome)
    ensures
        match first_with_path(analysis.files@, path@) {
            None => outcome is FileNotFound,
            Some(i) => {
                let table = analysis.files@[i].word_frequency@;
                let key = lower_case(word@);
                if table.contains_key(key) {
                    outcome == SearchOutcome::Found(table[key] as usize)
                } else {
                    outcome is WordNotFound
                }
            },
        },
{
    let target = String::from_str(path);
    let n = analysis.files.len();
    let mut i: usize = 0;
    while i < n
        invariant
            n == analysis.files@.len(),
            i <= n,
            target@ == path@,
            first_with_path(analysis.files@.take(i as int), path@) is None,
        decreases n - i,
    {
        assert(analysis.files@.take(i + 1).drop_last() =~= analysis.files@.take(i as int));
        if analysis.files[i].path == target {
            proof {
                lemma_first_with_path_prefix(analysis.files@, path@, i as int + 1);
            }
            return match find_word(&analysis.files[i], word) {
                Some(c) => SearchOutcome::Found(c),
                None => SearchOutcome::WordNotFound,
            };
        }
        i = i + 1;
    }
    proof {
        assert(analysis.files@.take(n as int) =~= analysis.files@);
    }
    SearchOutcome::FileNotFound
}

/// A match found in a prefix is the first match of the whole sequence.
proof fn lemma_first_with_path_prefix(files: Seq<FileStats>, path: Seq<char>, k: int)
    requires
        0 <= k <= files.len(),
        first_with_path(files.take(k), path) is Some,
    ensures
        first_with_path(files, path) == first_with_path(files.take(k), path),
    decreases files.len() - k,
{
    if k < files.len() {
        assert(files.take(k + 1).drop_last() =~= files.take(k));
        lemma_first_with_path_prefix(files, path, k + 1);
    } else {
        assert(files.take(k) =~= files);
    }
}

/// What the statistics of a text file say of one another: the counts of its
/// frequency table add up to its word count; its distinct words are its
/// lower-cased words; it has no more distinct words than words, and no more
/// words or lines than characters.
pub proof fn law_text_stats_agree(stats: FileStats, path: Seq<char>, content: Seq<char>)
    requires
        describes_text(stats, path, content),
    ensures
        Multiset::from_map(stats.word_frequency@).len() == stats.word_count,
        stats.word_frequency@.dom() == lowercase_all(words(content)).to_set(),
        stats.unique_words <= stats.word_count,
        stats.word_count <= stats.char_count,
        stats.line_count <= stats.char_count,
{
    let ws = lowercase_all(words(content));
    crate::frequency::law_frequency_counts(ws);
    crate::text::law_counts_bounded(content);
    ws.lemma_cardinality_of_set();
}

/// Every file's distinct words are among the distinct words of the whole
/// analysis, so the total is at least the number of any one file.
pub proof fn law_total_covers_each_file(files: Seq<FileStats>, i: int)
    requires
        0 <= i < files.len(),
    ensures
        words_of_files(files).finite(),
        files[i].word_frequency@.dom().subset_of(words_of_files(files)),
        files[i].word_frequency@.dom().len() <= words_of_files(files).len(),
    decreases files.len(),
{
    lemma_words_of_files_finite(files);
    if i < files.len() - 1 {
        law_total_covers_each_file(files.drop_last(), i);
        assert(files.drop_last()[i] == files[i]);
    }
    files[i].word_frequency.lemma_finite();
    vstd::set_lib::lemma_len_subset(files[i].word_frequency@.dom(), words_of_files(files));
}

proof fn lemma_words_of_files_finite(files: Seq<FileStats>)
    ensures
        words_of_files(files).finite(),
    decreases files.len(),
{
    if files.len() > 0 {
        lemma_words_of_files_finite(files.drop_last());
        files.last().word_frequency.lemma_finite();
    }
}

/// The files read as text are exactly the empty ones and those whose
/// lower-cased extension is one of txt, json, md, rs, py, js, html, css,
/// xml, csv, toml, yaml and yml.
pub proof fn law_text_extensions(path: Seq<char>, size: u64)
    ensures
        is_text_extension_spec("txt"@),
        is_text_extension_spec("json"@),
        is_text_extension_spec("md"@),
        is_text_extension_spec("rs"@),
        is_text_extension_spec("py"@),
        is_text_extension_spec("js"@),
        is_text_extension_spec("html"@),
        is_text_extension_spec("css"@),
        is_text_extension_spec("xml"@),
        is_text_extension_spec("csv"@),
        is_text_extension_spec("toml"@),
        is_text_extension_spec("yaml"@),
        is_text_extension_spec("yml"@),
        size == 0 ==> is_text_file_spec(path, size),
        size > 0 ==> (is_text_file_spec(path, size) <==> match extension(path) {
            Some(e) => lower_case(e) == "txt"@ || lower_case(e) == "json"@ || lower_case(e) == "md"@ || lower_case(e) == "rs"@ || lower_case(e) == "py"@ || lower_case(e) == "js"@ || lower_case(e) == "html"@ || lower_case(e) == "css"@ || lower_case(e) == "xml"@ || lower_case(e) == "csv"@ || lower_case(e) == "toml"@ || lower_case(e) == "yaml"@ || lower_case(e) == "yml"@,
            None => false,
        }),
{
}

/// The file searched is the first whose path is the one asked for: a found
/// position holds that path and no earlier one does; where none is found,
/// no file has it.
pub proof fn law_first_with_path(files: Seq<FileStats>, path: Seq<char>)
    ensures
        match first_with_path(files, path) {
            Some(i) => 0 <= i < files.len() && files[i].path@ == path && forall|j: int|
                0 <= j < i ==> files[j].path@ != path,
            None => forall|j: int| 0 <= j < files.len() ==> files[j].path@ != path,
        },
    decreases files.len(),
{
    if files.len() > 0 {
        law_first_with_path(files.drop_last(), path);
        assert forall|j: int| 0 <= j < files.len() - 1 implies files.drop_last()[j] == files[j] by {}
    }
}

/// A word belongs to the words of an analysis exactly when some file's
/// table holds it.
pub proof fn law_words_of_files(files: Seq<FileStats>, k: Seq<char>)
    ensures
        words_of_files(files).contains(k) <==> exists|i: int|
            0 <= i < files.len() && #[trigger] files[i].word_frequency@.contains_key(k),
    decreases files.len(),
{
    if files.len() > 0 {
        law_words_of_files(files.drop_last(), k);
        if words_of_files(files.drop_last()).contains(k) {
            let i = choose|i: int|
                0 <= i < files.drop_last().len()
                    && #[trigger] files.drop_last()[i].word_frequency@.contains_key(k);
            assert(files[i] == files.drop_last()[i]);
        }
        if exists|i: int| 0 <= i < files.len() && #[trigger] files[i].word_frequency@.contains_key(k) {
            let i = choose|i: int|
                0 <= i < files.len() && #[trigger] files[i].word_frequency@.contains_key(k);
            if i < files.len() - 1 {
                assert(files.drop_last()[i] == files[i]);
            }
        }
    }
}

} // verus!
