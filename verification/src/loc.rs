use crate::error::MccabreError;
use crate::text::{is_whitespace_char, whitespace_char};
use crate::tokenizer::{
    is_significant_kind, spec_tokens, token_views, Language, Token, TokenType, TokenTypeV, TokenV,
    Tokenizer,
};
use vstd::multiset::Multiset;
use vstd::prelude::*;

verus! {

/// What one physical line counts as.
#[derive(Debug, Clone, Copy, PartialEq, Eq, Structural)]
pub enum LineKind {
    Code,
    Comment,
    Blank,
}

/// Number of newline characters in the text.
pub open spec fn newline_count(s: Seq<char>) -> nat {
    s.filter(|c: char| c == '\n').len()
}

/// Number of physical lines: an empty text has none, any other has one
/// more than its newline count.
pub open spec fn spec_physical(s: Seq<char>) -> nat {
    if s.len() == 0 {
        0
    } else {
        newline_count(s) + 1
    }
}

/// The 0-based line the character at position `j` stands on.
pub open spec fn line_idx(s: Seq<char>, j: int) -> nat {
    newline_count(s.take(j))
}

/// All characters of line `i` before position `j` are whitespace.
pub open spec fn blank_upto(s: Seq<char>, i: int, j: int) -> bool {
    forall|x: int|
        0 <= x < j && line_idx(s, x) == i && s[x] != '\n' ==> is_whitespace_char(s[x])
}

/// Line `i` holds nothing but whitespace.
pub open spec fn blank_raw(s: Seq<char>, i: int) -> bool {
    blank_upto(s, i, s.len() as int)
}

/// The 0-based line a token starts on.
pub open spec fn token_line_index(t: TokenV) -> int {
    if t.line == 0 {
        0
    } else {
        t.line - 1
    }
}

/// The 0-based line a token ends on: its start line plus the newlines
/// its text spans.
pub open spec fn token_last_line_index(t: TokenV) -> int {
    token_line_index(t) + newline_count(t.text)
}

/// Whether the token touches line `i`: a token occupies the unbroken
/// run of lines from the one it starts on to the one it ends on.
pub open spec fn token_touches(t: TokenV, i: int) -> bool {
    token_line_index(t) <= i <= token_last_line_index(t)
}

/// Some significant token touches line `i`.
pub open spec fn has_significant_on(ts: Seq<TokenV>, i: int) -> bool {
    exists|k: int|
        0 <= k < ts.len() && is_significant_kind(#[trigger] ts[k].token_type) && token_touches(
            ts[k],
            i,
        )
}

/// Some comment token touches line `i`.
pub open spec fn has_comment_on(ts: Seq<TokenV>, i: int) -> bool {
    exists|k: int|
        0 <= k < ts.len() && #[trigger] ts[k].token_type is Comment && token_touches(ts[k], i)
}

/// What the token-driven pass makes of line `i`: code beats comment
/// beats blank.
pub open spec fn pass_kind(ts: Seq<TokenV>, i: int) -> LineKind {
    if has_significant_on(ts, i) {
        LineKind::Code
    } else if has_comment_on(ts, i) {
        LineKind::Comment
    } else {
        LineKind::Blank
    }
}

/// The final classification of line `i`: a whitespace-only line is
/// blank whatever tokens touch it, any other goes by its tokens.
pub open spec fn spec_line_kind(src: Seq<char>, i: int) -> LineKind {
    if blank_raw(src, i) {
        LineKind::Blank
    } else {
        pass_kind(spec_tokens(src), i)
    }
}

/// The classification of every physical line of the text.
pub open spec fn spec_line_kinds(src: Seq<char>) -> Seq<LineKind> {
    Seq::new(spec_physical(src), |i: int| spec_line_kind(src, i))
}

/// How many lines of `ks` are classified `k`.
pub open spec fn kind_count(ks: Seq<LineKind>, k: LineKind) -> nat {
    ks.filter(|x: LineKind| x == k).len()
}

/// Walking one character either stays on the same line or, at a
/// newline, moves to the next.
pub proof fn lemma_line_idx_step(s: Seq<char>, j: int)
    requires
        0 <= j < s.len(),
    ensures
        s[j] == '\n' ==> line_idx(s, j + 1) == line_idx(s, j) + 1,
        s[j] != '\n' ==> line_idx(s, j + 1) == line_idx(s, j),
{
    reveal(Seq::filter);
    let prefix = s.take(j + 1);
    assert(prefix.drop_last() =~= s.take(j));
    assert(prefix.last() == s[j]);
}

/// Line numbers never decrease along the text.
pub proof fn lemma_line_idx_mono(s: Seq<char>, x: int, y: int)
    requires
        0 <= x <= y <= s.len(),
    ensures
        line_idx(s, x) <= line_idx(s, y),
    decreases y - x,
{
    if x < y {
        lemma_line_idx_step(s, x);
        lemma_line_idx_mono(s, x + 1, y);
    }
}

/// Every character of the text sits on one of its lines.
pub proof fn lemma_line_idx_in_range(s: Seq<char>, j: int)
    requires
        0 <= j < s.len(),
    ensures
        line_idx(s, j) < spec_physical(s),
    decreases s.len() - j,
{
    reveal(Seq::filter);
    if j + 1 == s.len() {
        assert(s.take(s.len() as int) =~= s);
        lemma_line_idx_step(s, j);
        if s[j] == '\n' {
            assert(newline_count(s) == line_idx(s, j) + 1);
        } else {
            assert(newline_count(s) == line_idx(s, j));
        }
    } else {
        lemma_line_idx_step(s, j);
        lemma_line_idx_in_range(s, j + 1);
    }
}

/// Every line is exactly one of code, comment, or blank, so the three
/// counts split the line total.
pub proof fn lemma_kind_partition(ks: Seq<LineKind>)
    ensures
        kind_count(ks, LineKind::Code) + kind_count(ks, LineKind::Comment) + kind_count(
            ks,
            LineKind::Blank,
        ) == ks.len(),
    decreases ks.len(),
{
    reveal(Seq::filter);
    if ks.len() > 0 {
        lemma_kind_partition(ks.drop_last());
    }
}

/// Line-of-code counts for one file.
#[derive(Debug, Clone, Copy, PartialEq, Eq, Structural)]
pub struct LocMetrics {
    /// Total number of physical lines.
    pub physical: usize,
    /// Lines carrying code.
    pub logical: usize,
    /// Lines carrying only comments.
    pub comments: usize,
    /// Empty or whitespace-only lines.
    pub blank: usize,
}

/// Count the newline characters of the text.
fn count_newlines(source: &str) -> (r: usize)
    ensures
        r == newline_count(source@),
{
    let n = source.unicode_len();
    let mut count: usize = 0;
    let mut i: usize = 0;
    proof {
        reveal(Seq::filter);
        assert(source@.take(0int) =~= Seq::<char>::empty());
    }
    while i < n
        invariant
            i <= n,
            n == source@.len(),
            count == newline_count(source@.take(i as int)),
            count <= i,
        decreases n - i,
    {
        proof {
            reveal(Seq::filter);
            let prefix = source@.take(i as int + 1);
            assert(prefix.drop_last() =~= source@.take(i as int));
            assert(prefix.last() == source@[i as int]);
        }
        if source.get_char(i) == '\n' {
            count = count + 1;
        }
        i = i + 1;
    }
    proof {
        assert(source@.take(n as int) =~= source@);
    }
    count
}

/// Count the lines of `ks` classified as `k`.
fn count_kind(line_types: &Vec<LineKind>, k: LineKind) -> (r: usize)
    ensures
        r == kind_count(line_types@, k),
        r <= line_types@.len(),
{
    let mut count: usize = 0;
    let mut i: usize = 0;
    proof {
        reveal(Seq::filter);
        assert(line_types@.take(0int) =~= Seq::<LineKind>::empty());
    }
    while i < line_types.len()
        invariant
            i <= line_types@.len(),
            count == kind_count(line_types@.take(i as int), k),
            count <= i,
        decreases line_types@.len() - i,
    {
        proof {
            reveal(Seq::filter);
            let prefix = line_types@.take(i as int + 1);
            assert(prefix.drop_last() =~= line_types@.take(i as int));
            assert(prefix.last() == line_types@[i as int]);
        }
        if line_types[i] == k {
            count = count + 1;
        }
        i = i + 1;
    }
    proof {
        assert(line_types@.take(line_types@.len() as int) =~= line_types@);
    }
    count
}

/// Mark the lines `start ..= start + span`, as far as they exist: a
/// significant token turns them to code, a comment token to comment
/// unless code already won the line.
fn mark_span(line_types: &mut Vec<LineKind>, start: usize, span: usize, significant: bool)
    ensures
        final(line_types)@.len() == old(line_types)@.len(),
        forall|i: int|
            0 <= i < final(line_types)@.len() ==> final(line_types)@[i] == (if start <= i <= start
                + span {
                if significant {
                    LineKind::Code
                } else if old(line_types)@[i] == LineKind::Code {
                    LineKind::Code
                } else {
                    LineKind::Comment
                }
            } else {
                old(line_types)@[i]
            }),
{
    let mut ln = start;
    let mut k: usize = 0;
    while ln < line_types.len() && k <= span
        invariant
            ln == start + k,
            k as int <= span as int + 1,
            line_types@.len() == old(line_types)@.len(),
            forall|i: int|
                0 <= i < line_types@.len() ==> line_types@[i] == (if start <= i < ln as int {
                    if significant {
                        LineKind::Code
                    } else if old(line_types)@[i] == LineKind::Code {
                        LineKind::Code
                    } else {
                        LineKind::Comment
                    }
                } else {
                    old(line_types)@[i]
                }),
        decreases span + 1 - k,
    {
        if significant {
            line_types.set(ln, LineKind::Code);
        } else if line_types[ln] != LineKind::Code {
            line_types.set(ln, LineKind::Comment);
        }
        ln = ln + 1;
        k = k + 1;
    }
}

impl LocMetrics {
    /// Classify every physical line of the source and tally the counts.
    ///
    /// The four counts always satisfy
    /// `physical == logical + comments + blank`, and an empty source
    /// yields four zeroes.
    pub fn calculate(source: &str, language: Language) -> (r: Result<LocMetrics, MccabreError>)
        requires
            source@.len() < usize::MAX,
        ensures
            r matches Ok(m) && {
                let kinds = spec_line_kinds(source@);
                &&& m.physical == spec_physical(source@)
                &&& m.logical == kind_count(kinds, LineKind::Code)
                &&& m.comments == kind_count(kinds, LineKind::Comment)
                &&& m.blank == kind_count(kinds, LineKind::Blank)
                &&& m.physical == m.logical + m.comments + m.blank
                &&& (source@.len() == 0 ==> m.physical == 0 && m.logical == 0 && m.comments == 0
                    && m.blank == 0)
            },
    {
        let ghost src = source@;
        let tokens = match Tokenizer::new(source, language).tokenize() {
            Ok(ts) => ts,
            Err(e) => {
                proof {
                    assert(false);
                }
                return Err(e);
            },
        };
        let ghost views = token_views(tokens@);

        let newlines = count_newlines(source);
        let physical: usize = if source.unicode_len() == 0 {
            0
        } else {
            newlines + 1
        };
        let mut line_types: Vec<LineKind> = vec![LineKind::Blank; physical];

        // Token-driven pass: a significant token makes its line code, a
        // comment token makes it a comment line unless code already won.
        let mut t: usize = 0;
        proof {
            assert(views.take(0int) =~= Seq::<TokenV>::empty());
        }
        while t < tokens.len()
            invariant
                t <= tokens@.len(),
                views == token_views(tokens@),
                line_types@.len() == physical,
                forall|i: int|
                    0 <= i < physical ==> line_types@[i] == pass_kind(
                        views.take(t as int),
                        i,
                    ),
            decreases tokens@.len() - t,
        {
            let token = &tokens[t];
            let line_index = if token.line > 0 {
                token.line - 1
            } else {
                0
            };
            let span = count_newlines(token.text.as_str());
            let ghost prev = views.take(t as int);
            let ghost cur = views.take(t as int + 1);
            proof {
                assert(views[t as int] == tokens@[t as int]@);
                assert(cur.drop_last() =~= prev);
                assert(cur[t as int] == views[t as int]);
                assert(forall|k: int| 0 <= k < prev.len() ==> cur[k] == prev[k]);
                assert(cur[t as int].text == token.text@);
                assert(token_line_index(cur[t as int]) == line_index as int);
                assert(token_last_line_index(cur[t as int]) == line_index + span);
            }
            let significant = token.token_type.is_significant();
            let is_comment = matches!(token.token_type, TokenType::Comment);
            if significant || is_comment {
                mark_span(&mut line_types, line_index, span, significant);
            }
            proof {
                assert forall|i: int| 0 <= i < physical implies line_types@[i] == pass_kind(
                    cur,
                    i,
                ) by {
                    let tv = cur[t as int];
                    if line_index as int <= i <= line_index + span {
                        if is_significant_kind(tv.token_type) {
                            assert(token_touches(tv, i));
                            assert(has_significant_on(cur, i));
                        }
                        if tv.token_type is Comment {
                            assert(token_touches(tv, i));
                            assert(has_comment_on(cur, i));
                        }
                    }
                    if has_significant_on(cur, i) && !has_significant_on(prev, i) {
                        let k = choose|k: int|
                            0 <= k < cur.len() && is_significant_kind(
                                #[trigger] cur[k].token_type,
                            ) && token_touches(cur[k], i);
                        assert(k == t as int);
                    }
                    if has_comment_on(cur, i) && !has_comment_on(prev, i) {
                        let k = choose|k: int|
                            0 <= k < cur.len() && #[trigger] cur[k].token_type is Comment
                                && token_touches(cur[k], i);
                        assert(k == t as int);
                    }
                    if has_significant_on(prev, i) {
                        let k = choose|k: int|
                            0 <= k < prev.len() && is_significant_kind(
                                #[trigger] prev[k].token_type,
                            ) && token_touches(prev[k], i);
                        assert(is_significant_kind(cur[k].token_type) && token_touches(
                            cur[k],
                            i,
                        ));
                    }
                    if has_comment_on(prev, i) {
                        let k = choose|k: int|
                            0 <= k < prev.len() && #[trigger] prev[k].token_type is Comment
                                && token_touches(prev[k], i);
                        assert(cur[k].token_type is Comment && token_touches(cur[k], i));
                    }
                }
            }
            t = t + 1;
        }
        proof {
            assert(views.take(tokens@.len() as int) =~= views);
        }

        // Raw-line pass: force whitespace-only lines back to blank.
        let n = source.unicode_len();
        let mut j: usize = 0;
        let mut current_line: usize = 0;
        let mut all_whitespace = true;
        proof {
            assert(src.take(0int) =~= Seq::<char>::empty());
            reveal(Seq::filter);
        }
        while j < n
            invariant
                j <= n,
                n == src.len(),
                n < usize::MAX,
                src == source@,
                line_types@.len() == physical,
                physical == spec_physical(src),
                current_line == line_idx(src, j as int),
                all_whitespace ==> blank_upto(src, current_line as int, j as int),
                !all_whitespace ==> !blank_raw(src, current_line as int),
                forall|i: int|
                    0 <= i < physical && i < current_line ==> line_types@[i] == spec_line_kind(
                        src,
                        i,
                    ),
                forall|i: int|
                    current_line <= i < physical ==> line_types@[i] == pass_kind(views, i),
                views == spec_tokens(src),
            decreases n - j,
        {
            let c = source.get_char(j);
            proof {
                lemma_line_idx_step(src, j as int);
                lemma_line_idx_in_range(src, j as int);
            }
            if c == '\n' {
                proof {
                    if all_whitespace {
                        // No character of this line lies at or past the
                        // newline, so the scanned prefix was the whole line.
                        assert forall|x: int|
                            0 <= x < src.len() && line_idx(src, x) == current_line as int && src[x]
                                != '\n' implies is_whitespace_char(src[x]) by {
                            if x > j as int {
                                lemma_line_idx_mono(src, j as int + 1, x);
                            }
                        }
                        assert(blank_raw(src, current_line as int));
                    }
                }
                if all_whitespace {
                    line_types.set(current_line, LineKind::Blank);
                }
                current_line = current_line + 1;
                all_whitespace = true;
                proof {
                    assert(blank_upto(src, current_line as int, j as int + 1)) by {
                        assert forall|x: int|
                            0 <= x < j as int + 1 && line_idx(src, x) == current_line as int
                                && src[x] != '\n' implies is_whitespace_char(src[x]) by {
                            lemma_line_idx_mono(src, x, j as int);
                        }
                    }
                }
            } else {
                if !whitespace_char(c) {
                    all_whitespace = false;
                    proof {
                        // The character at `j` itself witnesses that the
                        // line is not whitespace-only.
                        assert(line_idx(src, j as int) == current_line as int);
                        assert(!is_whitespace_char(src[j as int]));
                        assert(!blank_raw(src, current_line as int));
                    }
                } else {
                    proof {
                        if all_whitespace {
                            assert(blank_upto(src, current_line as int, j as int + 1)) by {
                                assert forall|x: int|
                                    0 <= x < j as int + 1 && line_idx(src, x)
                                        == current_line as int && src[x] != '\n'
                                        implies is_whitespace_char(src[x]) by {}
                            }
                        }
                    }
                }
            }
            j = j + 1;
        }
        // Close out the final line, which no newline terminates.
        if physical > 0 && current_line < physical {
            proof {
                if all_whitespace {
                    assert forall|x: int|
                        0 <= x < src.len() && line_idx(src, x) == current_line as int && src[x]
                            != '\n' implies is_whitespace_char(src[x]) by {}
                    assert(blank_raw(src, current_line as int));
                }
            }
            if all_whitespace {
                line_types.set(current_line, LineKind::Blank);
            }
        }
        proof {
            assert(src.take(n as int) =~= src);
            assert forall|i: int| 0 <= i < physical implies line_types@[i] == spec_line_kind(
                src,
                i,
            ) by {
                if i > current_line as int {
                    assert forall|x: int|
                        0 <= x < src.len() && line_idx(src, x) == i && src[x] != '\n'
                            implies is_whitespace_char(src[x]) by {
                        lemma_line_idx_mono(src, x, src.len() as int);
                        assert(line_idx(src, x) <= current_line as int);
                    }
                    assert(blank_raw(src, i));
                }
            }
            assert(line_types@ =~= spec_line_kinds(src));
        }

        let comments = count_kind(&line_types, LineKind::Comment);
        let blank = count_kind(&line_types, LineKind::Blank);
        proof {
            lemma_kind_partition(line_types@);
        }
        let logical = physical - comments - blank;

        Ok(LocMetrics { physical, logical, comments, blank })
    }

    /// Componentwise sum of two counts.
    pub fn add(&self, other: &Self) -> (r: Self)
        requires
            self.physical + other.physical <= usize::MAX,
            self.logical + other.logical <= usize::MAX,
            self.comments + other.comments <= usize::MAX,
            self.blank + other.blank <= usize::MAX,
        ensures
            r.physical == self.physical + other.physical,
            r.logical == self.logical + other.logical,
            r.comments == self.comments + other.comments,
            r.blank == self.blank + other.blank,
    {
        Self {
            physical: self.physical + other.physical,
            logical: self.logical + other.logical,
            comments: self.comments + other.comments,
            blank: self.blank + other.blank,
        }
    }
}


/// Ranking criterion for the report.
#[derive(Debug, Clone, Copy, PartialEq, Eq, Structural)]
pub enum RankBy {
    /// Rank by code lines.
    Logical,
    /// Rank by physical lines.
    Physical,
    /// Rank by comment lines.
    Comments,
    /// Rank by blank lines.
    Blank,
}

/// The metric a ranking criterion reads.
pub open spec fn rank_value(rank: RankBy, m: LocMetrics) -> int {
    match rank {
        RankBy::Logical => m.logical as int,
        RankBy::Physical => m.physical as int,
        RankBy::Comments => m.comments as int,
        RankBy::Blank => m.blank as int,
    }
}

impl RankBy {
    /// Read the ranked metric out of a count record.
    pub fn value_from(&self, metrics: &LocMetrics) -> (r: usize)
        ensures
            r == rank_value(*self, *metrics),
    {
        match self {
            Self::Logical => metrics.logical,
            Self::Physical => metrics.physical,
            Self::Comments => metrics.comments,
            Self::Blank => metrics.blank,
        }
    }
}

/// Counts of one file, with its path.
#[derive(Debug, Clone)]
pub struct FileLocReport {
    /// File path.
    pub path: String,
    /// Its line counts.
    pub metrics: LocMetrics,
}

/// Counts aggregated over one directory.
#[derive(Debug, Clone)]
pub struct DirectoryLocMetrics {
    /// Directory path.
    pub path: String,
    /// Sum of the counts of its files.
    pub total: LocMetrics,
    /// The files it holds, ranked.
    pub files: Vec<FileLocReport>,
}

/// The whole report: ranked files, optional per-directory view, and
/// overall sums.
#[derive(Debug, Clone)]
pub struct LocReport {
    /// Per-file counts, ranked by the chosen criterion.
    pub files: Vec<FileLocReport>,
    /// Per-directory aggregation, when asked for.
    pub directories: Option<Vec<DirectoryLocMetrics>>,
    /// Overall sums.
    pub summary: LocSummary,
}

/// Sums over all reported files.
#[derive(Debug, Clone, Copy, PartialEq, Eq, Structural)]
pub struct LocSummary {
    /// How many files the report covers.
    pub total_files: usize,
    /// Sum of physical lines.
    pub total_physical: usize,
    /// Sum of code lines.
    pub total_logical: usize,
    /// Sum of comment lines.
    pub total_comments: usize,
    /// Sum of blank lines.
    pub total_blank: usize,
}

/// Fold of one selected count over a file list.
pub open spec fn sum_by(fs: Seq<FileLocReport>, sel: spec_fn(LocMetrics) -> int) -> int
    decreases fs.len(),
{
    if fs.len() == 0 {
        0
    } else {
        sum_by(fs.drop_last(), sel) + sel(fs.last().metrics)
    }
}

pub open spec fn sum_physical(fs: Seq<FileLocReport>) -> int {
    sum_by(fs, |m: LocMetrics| m.physical as int)
}

pub open spec fn sum_logical(fs: Seq<FileLocReport>) -> int {
    sum_by(fs, |m: LocMetrics| m.logical as int)
}

pub open spec fn sum_comments(fs: Seq<FileLocReport>) -> int {
    sum_by(fs, |m: LocMetrics| m.comments as int)
}

pub open spec fn sum_blank(fs: Seq<FileLocReport>) -> int {
    sum_by(fs, |m: LocMetrics| m.blank as int)
}

/// The four machine-limit bounds the report arithmetic needs.
pub open spec fn sums_fit(fs: Seq<FileLocReport>) -> bool {
    &&& sum_physical(fs) <= usize::MAX
    &&& sum_logical(fs) <= usize::MAX
    &&& sum_comments(fs) <= usize::MAX
    &&& sum_blank(fs) <= usize::MAX
}

/// The directory a path sits in: everything before its last separator.
/// A path without a separator, or one whose only separator leads, maps
/// to the empty directory name.
pub open spec fn spec_dir_of(p: Seq<char>) -> Seq<char> {
    if crate::tokenizer::find_last(p, '/') >= 0 {
        p.take(crate::tokenizer::find_last(p, '/'))
    } else {
        Seq::empty()
    }
}

/// The files of `fs` that sit in directory `d`, in order.
pub open spec fn dir_files(fs: Seq<FileLocReport>, d: Seq<char>) -> Seq<FileLocReport> {
    fs.filter(|f: FileLocReport| spec_dir_of(f.path@) == d)
}

/// Files ranked from largest to smallest.
pub open spec fn files_sorted_desc(fs: Seq<FileLocReport>, rank: RankBy) -> bool {
    forall|k1: int, k2: int|
        0 <= k1 < k2 < fs.len() ==> rank_value(rank, #[trigger] fs[k1].metrics) >= rank_value(
            rank,
            #[trigger] fs[k2].metrics,
        )
}

/// Directories ranked from largest to smallest total.
pub open spec fn dirs_sorted_desc(ds: Seq<DirectoryLocMetrics>, rank: RankBy) -> bool {
    forall|k1: int, k2: int|
        0 <= k1 < k2 < ds.len() ==> rank_value(rank, #[trigger] ds[k1].total) >= rank_value(
            rank,
            #[trigger] ds[k2].total,
        )
}

/// Some entry of the list carries this directory path.
pub open spec fn has_dir(ds: Seq<DirectoryLocMetrics>, d: Seq<char>) -> bool {
    exists|k: int| 0 <= k < ds.len() && (#[trigger] ds[k].path)@ == d
}

/// One directory entry faithfully aggregates its files: its totals are
/// the sums over exactly the files of that directory.
pub open spec fn dir_total_ok(d: DirectoryLocMetrics, fs: Seq<FileLocReport>) -> bool {
    let mine = dir_files(fs, d.path@);
    &&& d.total.physical == sum_physical(mine)
    &&& d.total.logical == sum_logical(mine)
    &&& d.total.comments == sum_comments(mine)
    &&& d.total.blank == sum_blank(mine)
}

/// What the per-directory view promises, relative to the file list it
/// was computed from.
pub open spec fn dirs_ok(ds: Seq<DirectoryLocMetrics>, fs: Seq<FileLocReport>, rank: RankBy) -> bool {
    &&& forall|k1: int, k2: int|
        0 <= k1 < k2 < ds.len() ==> (#[trigger] ds[k1].path)@ != (#[trigger] ds[k2].path)@
    &&& forall|k: int|
        0 <= k < ds.len() ==> (#[trigger] ds[k].files)@.to_multiset() == dir_files(
            fs,
            ds[k].path@,
        ).to_multiset()
    &&& forall|k: int| 0 <= k < ds.len() ==> files_sorted_desc((#[trigger] ds[k].files)@, rank)
    &&& forall|k: int| 0 <= k < ds.len() ==> dir_total_ok(#[trigger] ds[k], fs)
    &&& dirs_sorted_desc(ds, rank)
    &&& forall|j: int|
        0 <= j < fs.len() ==> has_dir(ds, spec_dir_of((#[trigger] fs[j].path)@))
}

/// Taking one more file adds its count to the running sum.
proof fn lemma_sum_take_step(fs: Seq<FileLocReport>, j: int, sel: spec_fn(LocMetrics) -> int)
    requires
        0 <= j < fs.len(),
    ensures
        sum_by(fs.take(j + 1), sel) == sum_by(fs.take(j), sel) + sel(fs[j].metrics),
{
    let prefix = fs.take(j + 1);
    assert(prefix.drop_last() =~= fs.take(j));
    assert(prefix.last() == fs[j]);
}

/// A sum of non-negative counts is non-negative.
proof fn lemma_sum_nonneg(fs: Seq<FileLocReport>, sel: spec_fn(LocMetrics) -> int)
    requires
        forall|m: LocMetrics| #[trigger] sel(m) >= 0,
    ensures
        sum_by(fs, sel) >= 0,
    decreases fs.len(),
{
    if fs.len() > 0 {
        lemma_sum_nonneg(fs.drop_last(), sel);
    }
}

/// A prefix never sums to more than the whole list.
proof fn lemma_sum_take_le(fs: Seq<FileLocReport>, j: int, sel: spec_fn(LocMetrics) -> int)
    requires
        0 <= j <= fs.len(),
        forall|m: LocMetrics| #[trigger] sel(m) >= 0,
    ensures
        sum_by(fs.take(j), sel) <= sum_by(fs, sel),
    decreases fs.len() - j,
{
    if j == fs.len() {
        assert(fs.take(j) =~= fs);
    } else {
        lemma_sum_take_step(fs, j, sel);
        lemma_sum_take_le(fs, j + 1, sel);
    }
}

/// A filtered list never sums to more than the whole list.
proof fn lemma_sum_filter_le(
    fs: Seq<FileLocReport>,
    p: spec_fn(FileLocReport) -> bool,
    sel: spec_fn(LocMetrics) -> int,
)
    requires
        forall|m: LocMetrics| #[trigger] sel(m) >= 0,
    ensures
        0 <= sum_by(fs.filter(p), sel) <= sum_by(fs, sel),
    decreases fs.len(),
{
    reveal(Seq::filter);
    lemma_sum_nonneg(fs.filter(p), sel);
    if fs.len() > 0 {
        lemma_sum_filter_le(fs.drop_last(), p, sel);
        if p(fs.last()) {
            let sub = fs.drop_last().filter(p).push(fs.last());
            assert(sub.drop_last() =~= fs.drop_last().filter(p));
            assert(sub.last() == fs.last());
        }
    }
}

/// A copy of a file entry, equal to the original.
fn clone_report(f: &FileLocReport) -> (r: FileLocReport)
    ensures
        r == *f,
{
    FileLocReport { path: f.path.clone(), metrics: f.metrics }
}

/// Rank a file list from largest to smallest of the chosen count, by
/// repeatedly moving the earliest largest entry over.
fn sort_files_desc(files: Vec<FileLocReport>, rank_by: RankBy) -> (r: Vec<FileLocReport>)
    ensures
        r@.to_multiset() == files@.to_multiset(),
        r@.len() == files@.len(),
        files_sorted_desc(r@, rank_by),
{
    broadcast use vstd::seq_lib::group_to_multiset_ensures;

    let mut rest = files;
    let mut sorted: Vec<FileLocReport> = Vec::new();
    proof {
        assert(sorted@.to_multiset().add(rest@.to_multiset()) =~= files@.to_multiset());
    }
    while rest.len() > 0
        invariant
            sorted@.to_multiset().add(rest@.to_multiset()) == files@.to_multiset(),
            sorted@.len() + rest@.len() == files@.len(),
            files_sorted_desc(sorted@, rank_by),
            forall|a: int, b: int|
                0 <= a < sorted@.len() && 0 <= b < rest@.len() ==> rank_value(
                    rank_by,
                    #[trigger] sorted@[a].metrics,
                ) >= rank_value(rank_by, #[trigger] rest@[b].metrics),
        decreases rest@.len(),
    {
        let mut best_idx: usize = 0;
        let mut best = rank_by.value_from(&rest[0].metrics);
        let mut j: usize = 1;
        while j < rest.len()
            invariant
                0 < rest@.len(),
                best_idx < j <= rest@.len() || (best_idx == 0 && j <= rest@.len()),
                best_idx < rest@.len(),
                best == rank_value(rank_by, rest@[best_idx as int].metrics),
                forall|x: int|
                    0 <= x < j ==> rank_value(rank_by, #[trigger] rest@[x].metrics) <= best,
            decreases rest@.len() - j,
        {
            let v = rank_by.value_from(&rest[j].metrics);
            if v > best {
                best = v;
                best_idx = j;
            }
            j = j + 1;
        }
        let ghost old_rest = rest@;
        let ghost old_sorted = sorted@;
        let picked = rest.remove(best_idx);
        proof {
            assert(rest@ == old_rest.remove(best_idx as int));
            vstd::seq_lib::to_multiset_remove(old_rest, best_idx as int);
            assert(old_rest.contains(picked));
            vstd::seq_lib::to_multiset_contains(old_rest, picked);
            assert(forall|b: int|
                0 <= b < rest@.len() ==> rest@[b] == old_rest[if b < best_idx as int {
                    b
                } else {
                    b + 1
                }]);
        }
        sorted.push(picked);
        proof {
            assert(sorted@ == old_sorted.push(picked));
            vstd::seq_lib::to_multiset_build(old_sorted, picked);
            assert(sorted@.to_multiset().add(rest@.to_multiset()) =~= files@.to_multiset());
            assert(forall|a: int| 0 <= a < old_sorted.len() ==> sorted@[a] == old_sorted[a]);
            assert(sorted@[sorted@.len() - 1] == picked);
        }
    }
    proof {
        vstd::seq_lib::to_multiset_len(rest@);
        vstd::multiset::lemma_multiset_empty_len(rest@.to_multiset());
        assert(rest@.to_multiset() =~= Multiset::<FileLocReport>::empty());
        assert(sorted@.to_multiset() =~= files@.to_multiset());
    }
    sorted
}

/// Rank directories from largest to smallest total of the chosen count.
fn sort_dirs_desc(dirs: Vec<DirectoryLocMetrics>, rank_by: RankBy) -> (r: Vec<DirectoryLocMetrics>)
    ensures
        r@.to_multiset() == dirs@.to_multiset(),
        r@.len() == dirs@.len(),
        dirs_sorted_desc(r@, rank_by),
{
    broadcast use vstd::seq_lib::group_to_multiset_ensures;

    let mut rest = dirs;
    let mut sorted: Vec<DirectoryLocMetrics> = Vec::new();
    proof {
        assert(sorted@.to_multiset().add(rest@.to_multiset()) =~= dirs@.to_multiset());
    }
    while rest.len() > 0
        invariant
            sorted@.to_multiset().add(rest@.to_multiset()) == dirs@.to_multiset(),
            sorted@.len() + rest@.len() == dirs@.len(),
            dirs_sorted_desc(sorted@, rank_by),
            forall|a: int, b: int|
                0 <= a < sorted@.len() && 0 <= b < rest@.len() ==> rank_value(
                    rank_by,
                    #[trigger] sorted@[a].total,
                ) >= rank_value(rank_by, #[trigger] rest@[b].total),
        decreases rest@.len(),
    {
        let mut best_idx: usize = 0;
        let mut best = rank_by.value_from(&rest[0].total);
        let mut j: usize = 1;
        while j < rest.len()
            invariant
                0 < rest@.len(),
                best_idx < rest@.len(),
                j <= rest@.len(),
                best == rank_value(rank_by, rest@[best_idx as int].total),
                forall|x: int|
                    0 <= x < j ==> rank_value(rank_by, #[trigger] rest@[x].total) <= best,
            decreases rest@.len() - j,
        {
            let v = rank_by.value_from(&rest[j].total);
            if v > best {
                best = v;
                best_idx = j;
            }
            j = j + 1;
        }
        let ghost old_rest = rest@;
        let ghost old_sorted = sorted@;
        let picked = rest.remove(best_idx);
        proof {
            assert(rest@ == old_rest.remove(best_idx as int));
            vstd::seq_lib::to_multiset_remove(old_rest, best_idx as int);
            assert(old_rest.contains(picked));
            vstd::seq_lib::to_multiset_contains(old_rest, picked);
            assert(forall|b: int|
                0 <= b < rest@.len() ==> rest@[b] == old_rest[if b < best_idx as int {
                    b
                } else {
                    b + 1
                }]);
        }
        sorted.push(picked);
        proof {
            assert(sorted@ == old_sorted.push(picked));
            vstd::seq_lib::to_multiset_build(old_sorted, picked);
            assert(sorted@.to_multiset().add(rest@.to_multiset()) =~= dirs@.to_multiset());
            assert(forall|a: int| 0 <= a < old_sorted.len() ==> sorted@[a] == old_sorted[a]);
            assert(sorted@[sorted@.len() - 1] == picked);
        }
    }
    proof {
        vstd::seq_lib::to_multiset_len(rest@);
        vstd::multiset::lemma_multiset_empty_len(rest@.to_multiset());
        assert(rest@.to_multiset() =~= Multiset::<DirectoryLocMetrics>::empty());
        assert(sorted@.to_multiset() =~= dirs@.to_multiset());
    }
    sorted
}


/// The directory part of a path.
fn dir_of(path: &str) -> (r: String)
    ensures
        r@ == spec_dir_of(path@),
{
    match crate::tokenizer::find_last_char(path, '/') {
        Some(i) => {
            let n = path.unicode_len();
            let sub = path.substring_char(0, i);
            proof {
                assert(path@.subrange(0, i as int) =~= path@.take(i as int));
            }
            sub.to_owned()
        },
        None => String::new(),
    }
}

/// The entry of `dirs` that carries this directory path, if any.
fn find_dir(dirs: &Vec<DirectoryLocMetrics>, dir: &String) -> (r: Option<usize>)
    ensures
        match r {
            Some(k) => k < dirs@.len() && dirs@[k as int].path@ == dir@,
            None => forall|x: int| 0 <= x < dirs@.len() ==> (#[trigger] dirs@[x].path)@ != dir@,
        },
{
    let mut k: usize = 0;
    while k < dirs.len()
        invariant
            k <= dirs@.len(),
            forall|x: int| 0 <= x < k ==> (#[trigger] dirs@[x].path)@ != dir@,
        decreases dirs@.len() - k,
    {
        if crate::text::str_eq(dirs[k].path.as_str(), dir.as_str()) {
            return Some(k);
        }
        k = k + 1;
    }
    None
}

/// Distinct directory paths and file coverage survive any reordering
/// of the directory list.
proof fn lemma_dirs_props_permute(
    a: Seq<DirectoryLocMetrics>,
    b: Seq<DirectoryLocMetrics>,
    fs: Seq<FileLocReport>,
)
    requires
        a.to_multiset() == b.to_multiset(),
        forall|k1: int, k2: int|
            0 <= k1 < k2 < a.len() ==> (#[trigger] a[k1].path)@ != (#[trigger] a[k2].path)@,
        forall|j: int| 0 <= j < fs.len() ==> has_dir(a, spec_dir_of((#[trigger] fs[j].path)@)),
    ensures
        forall|k1: int, k2: int|
            0 <= k1 < k2 < b.len() ==> (#[trigger] b[k1].path)@ != (#[trigger] b[k2].path)@,
        forall|k: int| 0 <= k < b.len() ==> a.contains(#[trigger] b[k]),
        forall|j: int| 0 <= j < fs.len() ==> has_dir(b, spec_dir_of((#[trigger] fs[j].path)@)),
{
    assert(a.no_duplicates()) by {
        assert forall|i: int, j: int|
            0 <= i < a.len() && 0 <= j < a.len() && i != j implies a[i] != a[j] by {
            if i < j {
                assert(a[i].path@ != a[j].path@);
            } else {
                assert(a[j].path@ != a[i].path@);
            }
        }
    }
    a.lemma_multiset_has_no_duplicates();
    b.lemma_multiset_has_no_duplicates_conv();
    assert forall|k: int| 0 <= k < b.len() implies a.contains(#[trigger] b[k]) by {
        assert(b.contains(b[k]));
        vstd::seq_lib::to_multiset_contains(b, b[k]);
        vstd::seq_lib::to_multiset_contains(a, b[k]);
    }
    assert forall|k1: int, k2: int|
        0 <= k1 < k2 < b.len() implies (#[trigger] b[k1].path)@ != (#[trigger] b[k2].path)@ by {
        if b[k1].path@ == b[k2].path@ {
            assert(b[k1] != b[k2]);
            assert(a.contains(b[k1]));
            assert(a.contains(b[k2]));
            let ka1 = choose|ka: int| 0 <= ka < a.len() && a[ka] == b[k1];
            let ka2 = choose|ka: int| 0 <= ka < a.len() && a[ka] == b[k2];
            assert(ka1 != ka2);
            if ka1 < ka2 {
                assert(a[ka1].path@ != a[ka2].path@);
            } else {
                assert(a[ka2].path@ != a[ka1].path@);
            }
        }
    }
    assert forall|j: int| 0 <= j < fs.len() implies has_dir(
        b,
        spec_dir_of((#[trigger] fs[j].path)@),
    ) by {
        assert(has_dir(a, spec_dir_of(fs[j].path@)));
        let ka = choose|k: int|
            0 <= k < a.len() && (#[trigger] a[k].path)@ == spec_dir_of(fs[j].path@);
        assert(a.contains(a[ka]));
        vstd::seq_lib::to_multiset_contains(a, a[ka]);
        vstd::seq_lib::to_multiset_contains(b, a[ka]);
        assert(b.contains(a[ka]));
        let kb = choose|kb: int| 0 <= kb < b.len() && b[kb] == a[ka];
        assert((b[kb].path)@ == spec_dir_of(fs[j].path@));
    }
}

/// A non-empty directory list for `d` names a file of `s` sitting in
/// `d`.
proof fn lemma_dir_files_witness(s: Seq<FileLocReport>, d: Seq<char>)
    requires
        dir_files(s, d).len() > 0,
    ensures
        exists|x: int| 0 <= x < s.len() && spec_dir_of((#[trigger] s[x].path)@) == d,
    decreases s.len(),
{
    reveal(Seq::filter);
    if s.len() > 0 {
        if spec_dir_of(s.last().path@) == d {
            assert(spec_dir_of((s[s.len() - 1].path)@) == d);
        } else {
            lemma_dir_files_witness(s.drop_last(), d);
            let x = choose|x: int|
                0 <= x < s.drop_last().len() && spec_dir_of(
                    (#[trigger] s.drop_last()[x].path)@,
                ) == d;
            assert(spec_dir_of((s[x].path)@) == d);
        }
    }
}

/// Group the files by directory, in first-seen order, with running
/// totals; every entry's files are exactly its directory's files.
fn group_by_directory(files: &Vec<FileLocReport>) -> (r: Vec<DirectoryLocMetrics>)
    requires
        sums_fit(files@),
    ensures
        forall|k1: int, k2: int|
            0 <= k1 < k2 < r@.len() ==> (#[trigger] r@[k1].path)@ != (#[trigger] r@[k2].path)@,
        forall|k: int|
            0 <= k < r@.len() ==> (#[trigger] r@[k].files)@ == dir_files(files@, r@[k].path@),
        forall|k: int| 0 <= k < r@.len() ==> dir_total_ok(#[trigger] r@[k], files@),
        forall|j: int|
            0 <= j < files@.len() ==> has_dir(r@, spec_dir_of((#[trigger] files@[j].path)@)),
{
    let ghost fs = files@;
    let mut dirs: Vec<DirectoryLocMetrics> = Vec::new();
    let mut j: usize = 0;
    proof {
        reveal(Seq::filter);
        assert(fs.take(0int) =~= Seq::<FileLocReport>::empty());
    }
    while j < files.len()
        invariant
            j <= fs.len(),
            fs == files@,
            sums_fit(fs),
            forall|k1: int, k2: int|
                0 <= k1 < k2 < dirs@.len() ==> (#[trigger] dirs@[k1].path)@ != (
                #[trigger] dirs@[k2].path)@,
            forall|k: int|
                0 <= k < dirs@.len() ==> (#[trigger] dirs@[k].files)@ == dir_files(
                    fs.take(j as int),
                    dirs@[k].path@,
                ),
            forall|k: int|
                0 <= k < dirs@.len() ==> dir_total_ok(#[trigger] dirs@[k], fs.take(j as int)),
            forall|x: int|
                0 <= x < j ==> has_dir(dirs@, spec_dir_of((#[trigger] fs[x].path)@)),
        decreases fs.len() - j,
    {
        let file = &files[j];
        let dir = dir_of(file.path.as_str());
        let ghost prev = fs.take(j as int);
        let ghost cur = fs.take(j as int + 1);
        proof {
            reveal(Seq::filter);
            assert(cur.drop_last() =~= prev);
            assert(cur.last() == fs[j as int]);
            // One more file extends exactly its own directory's list.
            assert forall|d: Seq<char>| true implies #[trigger] dir_files(cur, d) == (
            if spec_dir_of(fs[j as int].path@) == d {
                dir_files(prev, d).push(fs[j as int])
            } else {
                dir_files(prev, d)
            }) by {}
        }
        match find_dir(&dirs, &dir) {
            Some(k) => {
                let ghost old_dirs = dirs@;
                let mut entry = dirs.remove(k);
                let cloned = clone_report(file);
                entry.files.push(cloned);
                proof {
                    let mine_prev = dir_files(prev, entry.path@);
                    let mine_cur = dir_files(cur, entry.path@);
                    assert(mine_cur == mine_prev.push(fs[j as int]));
                    assert(mine_cur.drop_last() =~= mine_prev);
                    lemma_sum_step_and_fit(fs, j as int, entry.path@);
                }
                entry.total = entry.total.add(&file.metrics);
                proof {
                    assert(dir_total_ok(entry, cur));
                }
                dirs.insert(k, entry);
                proof {
                    assert(dirs@ =~= old_dirs.update(k as int, entry));
                    assert forall|x: int| 0 <= x < j as int + 1 implies has_dir(
                        dirs@,
                        spec_dir_of((#[trigger] fs[x].path)@),
                    ) by {
                        if x < j as int {
                            let k0 = choose|k0: int|
                                0 <= k0 < old_dirs.len() && (#[trigger] old_dirs[k0].path)@
                                    == spec_dir_of(fs[x].path@);
                            assert((dirs@[k0].path)@ == spec_dir_of(fs[x].path@));
                        } else {
                            assert((dirs@[k as int].path)@ == spec_dir_of(fs[j as int].path@));
                        }
                    }
                }
            },
            None => {
                let mut bucket: Vec<FileLocReport> = Vec::new();
                bucket.push(clone_report(file));
                let entry = DirectoryLocMetrics { path: dir, total: file.metrics, files: bucket };
                proof {
                    let mine_prev = dir_files(prev, entry.path@);
                    if mine_prev.len() > 0 {
                        // A file of this directory would already have
                        // put the directory into the list.
                        lemma_dir_files_witness(prev, entry.path@);
                        let x = choose|x: int|
                            0 <= x < prev.len() && spec_dir_of((#[trigger] prev[x].path)@)
                                == entry.path@;
                        assert(has_dir(dirs@, spec_dir_of(fs[x].path@)));
                        let k0 = choose|k0: int|
                            0 <= k0 < dirs@.len() && (#[trigger] dirs@[k0].path)@ == spec_dir_of(
                                fs[x].path@,
                            );
                        assert(false);
                    }
                    assert(mine_prev =~= Seq::<FileLocReport>::empty());
                    assert(dir_files(cur, entry.path@) =~= mine_prev.push(fs[j as int]));
                    let mine_cur = dir_files(cur, entry.path@);
                    assert(mine_cur.drop_last() =~= Seq::<FileLocReport>::empty());
                    assert(mine_cur.last() == fs[j as int]);
                    assert(sum_by(Seq::<FileLocReport>::empty(), |m: LocMetrics| m.physical as int)
                        == 0);
                    assert(sum_by(Seq::<FileLocReport>::empty(), |m: LocMetrics| m.logical as int)
                        == 0);
                    assert(sum_by(Seq::<FileLocReport>::empty(), |m: LocMetrics| m.comments as int)
                        == 0);
                    assert(sum_by(Seq::<FileLocReport>::empty(), |m: LocMetrics| m.blank as int)
                        == 0);
                    assert(dir_total_ok(entry, cur));
                }
                let ghost old_dirs = dirs@;
                dirs.push(entry);
                proof {
                    assert forall|x: int| 0 <= x < j as int + 1 implies has_dir(
                        dirs@,
                        spec_dir_of((#[trigger] fs[x].path)@),
                    ) by {
                        if x < j as int {
                            let k0 = choose|k0: int|
                                0 <= k0 < old_dirs.len() && (#[trigger] old_dirs[k0].path)@
                                    == spec_dir_of(fs[x].path@);
                            assert((dirs@[k0].path)@ == spec_dir_of(fs[x].path@));
                        } else {
                            assert((dirs@[dirs@.len() - 1].path)@ == spec_dir_of(
                                fs[j as int].path@,
                            ));
                        }
                    }
                }
            },
        }
        j = j + 1;
    }
    proof {
        assert(fs.take(fs.len() as int) =~= fs);
    }
    dirs
}

/// The running directory totals stay within machine bounds: a
/// directory's files are a sub-list of the whole file list.
proof fn lemma_sum_step_and_fit(fs: Seq<FileLocReport>, j: int, d: Seq<char>)
    requires
        0 <= j < fs.len(),
        sums_fit(fs),
        dir_files(fs.take(j + 1), d) == dir_files(fs.take(j), d).push(fs[j]),
    ensures
        sum_physical(dir_files(fs.take(j), d)) + fs[j].metrics.physical as int == sum_physical(
            dir_files(fs.take(j + 1), d),
        ) <= usize::MAX,
        sum_logical(dir_files(fs.take(j), d)) + fs[j].metrics.logical as int == sum_logical(
            dir_files(fs.take(j + 1), d),
        ) <= usize::MAX,
        sum_comments(dir_files(fs.take(j), d)) + fs[j].metrics.comments as int == sum_comments(
            dir_files(fs.take(j + 1), d),
        ) <= usize::MAX,
        sum_blank(dir_files(fs.take(j), d)) + fs[j].metrics.blank as int == sum_blank(
            dir_files(fs.take(j + 1), d),
        ) <= usize::MAX,
        sum_physical(dir_files(fs.take(j), d)) >= 0,
        sum_logical(dir_files(fs.take(j), d)) >= 0,
        sum_comments(dir_files(fs.take(j), d)) >= 0,
        sum_blank(dir_files(fs.take(j), d)) >= 0,
{
    let pred = |f: FileLocReport| spec_dir_of(f.path@) == d;
    let grown = dir_files(fs.take(j + 1), d);
    assert(grown.drop_last() =~= dir_files(fs.take(j), d));
    assert(grown.last() == fs[j]);
    lemma_step_one(fs, j, d, |m: LocMetrics| m.physical as int);
    lemma_step_one(fs, j, d, |m: LocMetrics| m.logical as int);
    lemma_step_one(fs, j, d, |m: LocMetrics| m.comments as int);
    lemma_step_one(fs, j, d, |m: LocMetrics| m.blank as int);
}

/// One selected count: the pushed file extends the directory sum, and
/// the grown sum still fits under the whole list's sum.
proof fn lemma_step_one(fs: Seq<FileLocReport>, j: int, d: Seq<char>, sel: spec_fn(LocMetrics) -> int)
    requires
        0 <= j < fs.len(),
        forall|m: LocMetrics| #[trigger] sel(m) >= 0,
        sum_by(fs, sel) <= usize::MAX,
        dir_files(fs.take(j + 1), d) == dir_files(fs.take(j), d).push(fs[j]),
    ensures
        sum_by(dir_files(fs.take(j + 1), d), sel) == sum_by(dir_files(fs.take(j), d), sel) + sel(
            fs[j].metrics,
        ),
        sum_by(dir_files(fs.take(j + 1), d), sel) <= usize::MAX,
        sum_by(dir_files(fs.take(j), d), sel) >= 0,
{
    let pred = |f: FileLocReport| spec_dir_of(f.path@) == d;
    let grown = dir_files(fs.take(j + 1), d);
    assert(grown.drop_last() =~= dir_files(fs.take(j), d));
    assert(grown.last() == fs[j]);
    lemma_sum_nonneg(dir_files(fs.take(j), d), sel);
    lemma_sum_filter_le(fs.take(j + 1), pred, sel);
    lemma_sum_take_le(fs, j + 1, sel);
}


/// Group the files by directory, rank each directory's files, and rank
/// the directories by their totals.
fn aggregate_by_directory(files: &Vec<FileLocReport>, rank_by: RankBy) -> (r: Vec<
    DirectoryLocMetrics,
>)
    requires
        sums_fit(files@),
    ensures
        dirs_ok(r@, files@, rank_by),
{
    let grouped = group_by_directory(files);
    let ghost g0 = grouped@;

    let mut rem = grouped;
    let mut polished: Vec<DirectoryLocMetrics> = Vec::new();
    while rem.len() > 0
        invariant
            polished@.len() + rem@.len() == g0.len(),
            forall|k: int| 0 <= k < rem@.len() ==> #[trigger] rem@[k] == g0[polished@.len() + k],
            forall|k: int|
                0 <= k < polished@.len() ==> {
                    let d = #[trigger] polished@[k];
                    &&& d.path@ == g0[k].path@
                    &&& d.total == g0[k].total
                    &&& d.files@.to_multiset() == g0[k].files@.to_multiset()
                    &&& files_sorted_desc(d.files@, rank_by)
                },
        decreases rem@.len(),
    {
        let ghost before = rem@;
        let d = rem.remove(0);
        proof {
            assert(d == g0[polished@.len() as int]);
            assert(forall|k: int| 0 <= k < rem@.len() ==> #[trigger] rem@[k] == before[k + 1]);
        }
        let DirectoryLocMetrics { path, total, files: bucket } = d;
        let sorted_bucket = sort_files_desc(bucket, rank_by);
        polished.push(DirectoryLocMetrics { path, total, files: sorted_bucket });
    }

    proof {
        assert forall|j: int| 0 <= j < files@.len() implies has_dir(
            polished@,
            spec_dir_of((#[trigger] files@[j].path)@),
        ) by {
            assert(has_dir(g0, spec_dir_of(files@[j].path@)));
            let k0 = choose|k0: int|
                0 <= k0 < g0.len() && (#[trigger] g0[k0].path)@ == spec_dir_of(files@[j].path@);
            assert((polished@[k0].path)@ == spec_dir_of(files@[j].path@));
        }
        assert forall|k: int| 0 <= k < polished@.len() implies dir_total_ok(
            #[trigger] polished@[k],
            files@,
        ) by {
            assert(dir_total_ok(g0[k], files@));
            assert(dir_files(files@, polished@[k].path@) == dir_files(files@, g0[k].path@));
        }
    }
    let result = sort_dirs_desc(polished, rank_by);
    proof {
        lemma_dirs_props_permute(polished@, result@, files@);
        assert forall|k: int| 0 <= k < result@.len() implies {
            let d = #[trigger] result@[k];
            &&& d.files@.to_multiset() == dir_files(files@, d.path@).to_multiset()
            &&& files_sorted_desc(d.files@, rank_by)
            &&& dir_total_ok(d, files@)
        } by {
            assert(polished@.contains(result@[k]));
            let ka = choose|ka: int|
                0 <= ka < polished@.len() && polished@[ka] == result@[k];
            assert(polished@[ka].files@.to_multiset() == g0[ka].files@.to_multiset());
            assert(g0[ka].files@ == dir_files(files@, g0[ka].path@));
            assert(dir_total_ok(polished@[ka], files@));
        }
    }
    result
}

impl LocSummary {
    /// Sum every file's counts into the overall totals.
    fn from_files(files: &Vec<FileLocReport>) -> (r: LocSummary)
        requires
            sums_fit(files@),
        ensures
            r.total_files == files@.len(),
            r.total_physical == sum_physical(files@),
            r.total_logical == sum_logical(files@),
            r.total_comments == sum_comments(files@),
            r.total_blank == sum_blank(files@),
    {
        let ghost fs = files@;
        let total_files = files.len();
        let mut total_physical: usize = 0;
        let mut total_logical: usize = 0;
        let mut total_comments: usize = 0;
        let mut total_blank: usize = 0;
        let mut j: usize = 0;
        proof {
            assert(fs.take(0int) =~= Seq::<FileLocReport>::empty());
        }
        while j < files.len()
            invariant
                j <= fs.len(),
                fs == files@,
                sums_fit(fs),
                total_physical == sum_physical(fs.take(j as int)),
                total_logical == sum_logical(fs.take(j as int)),
                total_comments == sum_comments(fs.take(j as int)),
                total_blank == sum_blank(fs.take(j as int)),
            decreases fs.len() - j,
        {
            proof {
                lemma_sum_take_step(fs, j as int, |m: LocMetrics| m.physical as int);
                lemma_sum_take_step(fs, j as int, |m: LocMetrics| m.logical as int);
                lemma_sum_take_step(fs, j as int, |m: LocMetrics| m.comments as int);
                lemma_sum_take_step(fs, j as int, |m: LocMetrics| m.blank as int);
                lemma_sum_take_le(fs, j as int + 1, |m: LocMetrics| m.physical as int);
                lemma_sum_take_le(fs, j as int + 1, |m: LocMetrics| m.logical as int);
                lemma_sum_take_le(fs, j as int + 1, |m: LocMetrics| m.comments as int);
                lemma_sum_take_le(fs, j as int + 1, |m: LocMetrics| m.blank as int);
                lemma_sum_nonneg(fs.take(j as int), |m: LocMetrics| m.physical as int);
                lemma_sum_nonneg(fs.take(j as int), |m: LocMetrics| m.logical as int);
                lemma_sum_nonneg(fs.take(j as int), |m: LocMetrics| m.comments as int);
                lemma_sum_nonneg(fs.take(j as int), |m: LocMetrics| m.blank as int);
            }
            let m = &files[j].metrics;
            total_physical = total_physical + m.physical;
            total_logical = total_logical + m.logical;
            total_comments = total_comments + m.comments;
            total_blank = total_blank + m.blank;
            j = j + 1;
        }
        proof {
            assert(fs.take(fs.len() as int) =~= fs);
        }
        LocSummary { total_files, total_physical, total_logical, total_comments, total_blank }
    }
}

impl LocReport {
    /// Build the report: overall sums, the optional per-directory view,
    /// and the files ranked by the chosen count.
    pub fn new(files: Vec<FileLocReport>, rank_by: RankBy, rank_dirs: bool) -> (r: Self)
        requires
            sums_fit(files@),
        ensures
            r.files@.to_multiset() == files@.to_multiset(),
            r.files@.len() == files@.len(),
            files_sorted_desc(r.files@, rank_by),
            r.summary.total_files == files@.len(),
            r.summary.total_physical == sum_physical(files@),
            r.summary.total_logical == sum_logical(files@),
            r.summary.total_comments == sum_comments(files@),
            r.summary.total_blank == sum_blank(files@),
            rank_dirs ==> (r.directories matches Some(ds) && dirs_ok(ds@, files@, rank_by)),
            !rank_dirs ==> r.directories is None,
    {
        let summary = LocSummary::from_files(&files);
        let directories = if rank_dirs {
            Some(aggregate_by_directory(&files, rank_by))
        } else {
            None
        };
        let sorted = sort_files_desc(files, rank_by);

        Self { files: sorted, directories, summary }
    }
}

} // verus!
