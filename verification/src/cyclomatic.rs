use crate::error::MccabreError;
use crate::text::str_eq;
use crate::tokenizer::{
    spec_tokens, token_views, is_decision_kind, Language, Token, TokenType, TokenTypeV, TokenV,
    Tokenizer,
};
use vstd::prelude::*;

verus! {

/// How worrying a complexity value is, by the usual thresholds.
#[derive(Debug, Clone, Copy, PartialEq, Eq, Structural)]
pub enum Severity {
    Low,
    Moderate,
    High,
    VeryHigh,
}

/// The decision-point tokens of a token sequence.
pub open spec fn decision_tokens(ts: Seq<TokenV>) -> Seq<TokenV> {
    ts.filter(|t: TokenV| is_decision_kind(t.token_type))
}

/// How many tokens of the sequence are decision points.
pub open spec fn decision_count(ts: Seq<TokenV>) -> nat {
    decision_tokens(ts).len()
}

/// McCabe's formula: one more than the decision-point count, and one
/// for straight-line code.
pub open spec fn complexity_value(count: nat) -> nat {
    if count == 0 {
        1
    } else {
        count + 1
    }
}

/// The whole-file complexity of a token sequence.
pub open spec fn spec_file_complexity(ts: Seq<TokenV>) -> nat {
    complexity_value(decision_count(ts))
}

/// The severity band a complexity value falls in.
pub open spec fn spec_severity(complexity: nat) -> Severity {
    if 1 <= complexity <= 10 {
        Severity::Low
    } else if 11 <= complexity <= 20 {
        Severity::Moderate
    } else if 21 <= complexity <= 50 {
        Severity::High
    } else {
        Severity::VeryHigh
    }
}

/// Whether a token reads as a function-introducing keyword.
pub open spec fn is_fn_keyword(t: TokenV) -> bool {
    t.token_type matches TokenTypeV::Identifier(w) && (w == "fn"@ || w == "func"@ || w
        == "function"@)
}

/// First opening brace at or after `j`.
pub open spec fn find_brace(ts: Seq<TokenV>, j: int) -> Option<int>
    decreases ts.len() - j when 0 <= j <= ts.len()
{
    if j >= ts.len() {
        None
    } else if ts[j].token_type is LeftBrace {
        Some(j)
    } else {
        find_brace(ts, j + 1)
    }
}

/// Index of the brace that closes the body, scanning from `j` with the
/// given open depth: an opening brace deepens, a closing brace that
/// returns the depth to zero ends the body.
pub open spec fn match_brace(ts: Seq<TokenV>, j: int, depth: int) -> Option<int>
    decreases ts.len() - j when 0 <= j <= ts.len()
{
    if j >= ts.len() {
        None
    } else if ts[j].token_type is LeftBrace {
        match_brace(ts, j + 1, depth + 1)
    } else if ts[j].token_type is RightBrace {
        if depth - 1 == 0 {
            Some(j)
        } else {
            match_brace(ts, j + 1, depth - 1)
        }
    } else {
        match_brace(ts, j + 1, depth)
    }
}

pub proof fn lemma_find_brace_bounds(ts: Seq<TokenV>, j: int)
    requires
        0 <= j <= ts.len(),
    ensures
        match find_brace(ts, j) {
            Some(b) => j <= b < ts.len() && ts[b].token_type is LeftBrace,
            None => true,
        },
    decreases ts.len() - j,
{
    if j < ts.len() && !(ts[j].token_type is LeftBrace) {
        lemma_find_brace_bounds(ts, j + 1);
    }
}

pub proof fn lemma_match_brace_bounds(ts: Seq<TokenV>, j: int, depth: int)
    requires
        0 <= j <= ts.len(),
    ensures
        match match_brace(ts, j, depth) {
            Some(e) => j <= e < ts.len(),
            None => true,
        },
    decreases ts.len() - j,
{
    if j < ts.len() {
        lemma_match_brace_bounds(ts, j + 1, depth + 1);
        lemma_match_brace_bounds(ts, j + 1, depth - 1);
        lemma_match_brace_bounds(ts, j + 1, depth);
    }
}

/// Decision-point count of the inclusive token range `[b, e]`.
pub open spec fn range_decision_count(ts: Seq<TokenV>, b: int, e: int) -> nat {
    decision_count(ts.subrange(b, e + 1))
}

/// The function record produced for a keyword at `i` whose body spans
/// the braces at `b` and `e`.
pub open spec fn func_at(ts: Seq<TokenV>, i: int, b: int, e: int) -> FunctionComplexityV {
    FunctionComplexityV {
        name: if i + 1 < ts.len() && ts[i + 1].token_type matches TokenTypeV::Identifier(id) {
            ts[i + 1].token_type->Identifier_0
        } else {
            "anonymous"@
        },
        complexity: complexity_value(range_decision_count(ts, b, e)),
        line: ts[i].line,
    }
}

/// The functions detected by the keyword-plus-brace-matching scan from
/// `i` on: a function keyword opens a candidate; with both braces found
/// the body is recorded and the scan resumes past it, otherwise the
/// scan moves on by one token.
pub open spec fn spec_detect_functions_from(ts: Seq<TokenV>, i: int) -> Seq<FunctionComplexityV>
    decreases ts.len() - i when 0 <= i <= ts.len()
{
    if i >= ts.len() {
        Seq::empty()
    } else if is_fn_keyword(ts[i]) {
        match find_brace(ts, i) {
            Some(b) => {
                proof {
                    lemma_find_brace_bounds(ts, i);
                }
                match match_brace(ts, b, 0) {
                    Some(e) => {
                        proof {
                            lemma_match_brace_bounds(ts, b, 0);
                        }
                        seq![func_at(ts, i, b, e)] + spec_detect_functions_from(
                            ts,
                            if e + 1 > i + 1 {
                                e + 1
                            } else {
                                i + 1
                            },
                        )
                    },
                    None => spec_detect_functions_from(ts, i + 1),
                }
            },
            None => spec_detect_functions_from(ts, i + 1),
        }
    } else {
        spec_detect_functions_from(ts, i + 1)
    }
}

/// All functions the heuristic detects in a token sequence.
pub open spec fn spec_detect_functions(ts: Seq<TokenV>) -> Seq<FunctionComplexityV> {
    spec_detect_functions_from(ts, 0)
}

/// Cyclomatic complexity of one file: the whole-file value, and one
/// record per detected function.
#[derive(Debug, Clone)]
pub struct CyclomaticMetrics {
    /// Overall file complexity.
    pub file_complexity: usize,
    /// Individual function complexities, as far as boundaries could be
    /// detected.
    pub functions: Vec<FunctionComplexity>,
}

/// Complexity of one detected function.
#[derive(Debug, Clone)]
pub struct FunctionComplexity {
    /// Function name; `"anonymous"` when none follows the keyword.
    pub name: String,
    /// Cyclomatic complexity of its body.
    pub complexity: usize,
    /// Line its keyword stands on.
    pub line: usize,
}

/// The mathematical image of a function record.
pub ghost struct FunctionComplexityV {
    pub name: Seq<char>,
    pub complexity: nat,
    pub line: nat,
}

impl View for FunctionComplexity {
    type V = FunctionComplexityV;

    open spec fn view(&self) -> FunctionComplexityV {
        FunctionComplexityV {
            name: self.name@,
            complexity: self.complexity as nat,
            line: self.line as nat,
        }
    }
}

/// Counting decision points after filtering to significant tokens
/// gives the same value as counting them over the full stream: every
/// decision point is itself a significant token.
pub proof fn lemma_decision_count_significant(ts: Seq<TokenV>)
    ensures
        decision_count(crate::detector::sig_tokens(ts)) == decision_count(ts),
    decreases ts.len(),
{
    reveal(Seq::filter);
    if ts.len() > 0 {
        lemma_decision_count_significant(ts.drop_last());
        let last = ts.last();
        let rest = ts.drop_last();
        if crate::tokenizer::is_significant_kind(last.token_type) {
            assert(crate::detector::sig_tokens(ts) == crate::detector::sig_tokens(rest).push(
                last,
            ));
            assert(crate::detector::sig_tokens(ts).drop_last() =~= crate::detector::sig_tokens(
                rest,
            ));
            assert(crate::detector::sig_tokens(ts).last() == last);
        } else {
            assert(!is_decision_kind(last.token_type));
            assert(crate::detector::sig_tokens(ts) == crate::detector::sig_tokens(rest));
        }
    } else {
        assert(crate::detector::sig_tokens(ts) =~= ts);
    }
}

/// The views of a vector of function records.
pub open spec fn function_views(fs: Seq<FunctionComplexity>) -> Seq<FunctionComplexityV> {
    fs.map_values(|f: FunctionComplexity| f@)
}

/// The token count never exceeds the character count: every token
/// consumes at least one character.
pub proof fn lemma_token_count(src: Seq<char>, pos: int, line: nat, column: nat)
    requires
        0 <= pos <= src.len(),
    ensures
        crate::tokenizer::lex_from(src, pos, line, column).len() <= src.len() - pos,
    decreases src.len() - pos,
{
    if pos < src.len() {
        crate::tokenizer::lemma_tok_end_bounds(src, pos);
        let end = crate::tokenizer::tok_end(src, pos);
        let next = crate::tokenizer::advance_position(src, pos, end, line, column);
        lemma_token_count(src, end, next.0, next.1);
    }
}

/// Counting a filtered sequence never counts more than everything.
pub proof fn lemma_filter_le_len<A>(s: Seq<A>, pred: spec_fn(A) -> bool)
    ensures
        s.filter(pred).len() <= s.len(),
    decreases s.len(),
{
    reveal(Seq::filter);
    if s.len() > 0 {
        lemma_filter_le_len(s.drop_last(), pred);
    }
}

/// Count the decision points among the tokens `[from, to)`.
fn count_decision_points(tokens: &Vec<Token>, from: usize, to: usize) -> (r: usize)
    requires
        from <= to <= tokens@.len(),
    ensures
        r == decision_count(token_views(tokens@).subrange(from as int, to as int)),
        r <= to - from,
{
    let ghost views = token_views(tokens@);
    let mut count: usize = 0;
    let mut j = from;
    proof {
        reveal(Seq::filter);
        assert(views.subrange(from as int, from as int) =~= Seq::<TokenV>::empty());
    }
    while j < to
        invariant
            from <= j <= to <= tokens@.len(),
            views == token_views(tokens@),
            count == decision_count(views.subrange(from as int, j as int)),
            count <= j - from,
        decreases to - j,
    {
        proof {
            reveal(Seq::filter);
            let prefix = views.subrange(from as int, j as int + 1);
            assert(prefix.drop_last() =~= views.subrange(from as int, j as int));
            assert(prefix.last() == views[j as int]);
        }
        if tokens[j].token_type.is_decision_point() {
            count = count + 1;
        }
        j = j + 1;
    }
    count
}

/// First opening brace at or after `start`.
fn find_next_left_brace(tokens: &Vec<Token>, start: usize) -> (r: Option<usize>)
    requires
        start <= tokens@.len(),
    ensures
        match find_brace(token_views(tokens@), start as int) {
            Some(b) => r == Some(b as usize),
            None => r is None,
        },
{
    let ghost views = token_views(tokens@);
    let mut j = start;
    while j < tokens.len()
        invariant
            start <= j <= tokens@.len(),
            views == token_views(tokens@),
            find_brace(views, start as int) == find_brace(views, j as int),
        decreases tokens@.len() - j,
    {
        if matches!(tokens[j].token_type, TokenType::LeftBrace) {
            proof {
                lemma_find_brace_bounds(views, j as int);
            }
            return Some(j);
        }
        j = j + 1;
    }
    None
}

/// The closing brace matching the opening brace at `open_idx`.
fn find_matching_brace(tokens: &Vec<Token>, open_idx: usize) -> (r: Option<usize>)
    requires
        open_idx < tokens@.len(),
        token_views(tokens@)[open_idx as int].token_type is LeftBrace,
    ensures
        match match_brace(token_views(tokens@), open_idx as int, 0) {
            Some(e) => r == Some(e as usize),
            None => r is None,
        },
{
    let ghost views = token_views(tokens@);
    let mut depth: usize = 0;
    let mut j = open_idx;
    while j < tokens.len()
        invariant
            open_idx <= j <= tokens@.len(),
            views == token_views(tokens@),
            views[open_idx as int].token_type is LeftBrace,
            match_brace(views, open_idx as int, 0) == match_brace(views, j as int, depth as int),
            j == open_idx ==> depth == 0,
            j > open_idx ==> depth >= 1,
            depth <= j - open_idx,
        decreases tokens@.len() - j,
    {
        match &tokens[j].token_type {
            TokenType::LeftBrace => {
                depth = depth + 1;
            },
            TokenType::RightBrace => {
                depth = depth - 1;
                if depth == 0 {
                    return Some(j);
                }
            },
            _ => {},
        }
        j = j + 1;
    }
    None
}

/// Scan the token list for function-like boundaries and compute each
/// body's complexity.
fn detect_functions(tokens: &Vec<Token>, _language: Language) -> (r: Vec<FunctionComplexity>)
    ensures
        function_views(r@) == spec_detect_functions(token_views(tokens@)),
{
    let ghost views = token_views(tokens@);
    let mut functions: Vec<FunctionComplexity> = Vec::new();
    let mut i: usize = 0;

    proof {
        assert(function_views(functions@) =~= Seq::<FunctionComplexityV>::empty());
        assert(function_views(functions@) + spec_detect_functions_from(views, 0)
            =~= spec_detect_functions_from(views, 0));
    }
    while i < tokens.len()
        invariant
            i <= tokens@.len(),
            views == token_views(tokens@),
            spec_detect_functions(views) =~= function_views(functions@)
                + spec_detect_functions_from(views, i as int),
        decreases tokens@.len() - i,
    {
        let is_function_keyword = match &tokens[i].token_type {
            TokenType::Identifier(name) => str_eq(name.as_str(), "fn") || str_eq(
                name.as_str(),
                "func",
            ) || str_eq(name.as_str(), "function"),
            _ => false,
        };

        if is_function_keyword {
            let mut name = String::from_str("anonymous");
            let line = tokens[i].line;

            if i + 1 < tokens.len() {
                if let TokenType::Identifier(id) = &tokens[i + 1].token_type {
                    name = id.clone();
                }
            }

            match find_next_left_brace(tokens, i) {
                Some(body_start_idx) => {
                    proof {
                        lemma_find_brace_bounds(views, i as int);
                    }
                    match find_matching_brace(tokens, body_start_idx) {
                        Some(body_end_idx) => {
                            proof {
                                lemma_match_brace_bounds(views, body_start_idx as int, 0);
                            }
                            let decision_points = count_decision_points(
                                tokens,
                                body_start_idx,
                                body_end_idx + 1,
                            );
                            let complexity = if decision_points == 0 {
                                1
                            } else {
                                decision_points + 1
                            };
                            let func = FunctionComplexity { name, complexity, line };
                            proof {
                                assert(func@ == func_at(
                                    views,
                                    i as int,
                                    body_start_idx as int,
                                    body_end_idx as int,
                                ));
                                assert(function_views(functions@.push(func)) =~= function_views(
                                    functions@,
                                ) + seq![func@]);
                            }
                            functions.push(func);
                            i = body_end_idx + 1;
                            continue ;
                        },
                        None => {},
                    }
                },
                None => {},
            }
        }

        i = i + 1;
    }
    functions
}

impl CyclomaticMetrics {
    /// Tokenize the source and compute the whole-file complexity along
    /// with per-function complexities.
    ///
    /// The file value is one more than the number of decision-point
    /// tokens, floored at one: it is never below one, and exactly one
    /// for a file without decision points.
    pub fn calculate(source: &str, language: Language) -> (r: Result<
        CyclomaticMetrics,
        MccabreError,
    >)
        requires
            source@.len() < usize::MAX,
        ensures
            r matches Ok(m) && {
                let ts = spec_tokens(source@);
                &&& m.file_complexity == spec_file_complexity(ts)
                &&& m.file_complexity >= 1
                &&& (decision_count(ts) == 0 ==> m.file_complexity == 1)
                &&& function_views(m.functions@) == spec_detect_functions(ts)
            },
    {
        let ghost src = source@;
        let tokens = match Tokenizer::new(source, language).tokenize() {
            Ok(ts) => ts,
            Err(e) => {
                proof {
                    assert(false);
                }
                return Err(e);
            },
        };
        proof {
            lemma_token_count(src, 0, 1, 1);
            lemma_filter_le_len(
                token_views(tokens@),
                |t: TokenV| is_decision_kind(t.token_type),
            );
            assert(token_views(tokens@).subrange(0, tokens@.len() as int) =~= token_views(
                tokens@,
            ));
        }
        let decision_points = count_decision_points(&tokens, 0, tokens.len());
        let file_complexity = if decision_points == 0 {
            1
        } else {
            decision_points + 1
        };
        let functions = detect_functions(&tokens, language);

        Ok(CyclomaticMetrics { file_complexity, functions })
    }

    /// The severity band of this file's complexity.
    pub fn severity(&self) -> (r: Severity)
        ensures
            r == spec_severity(self.file_complexity as nat),
    {
        if 1 <= self.file_complexity && self.file_complexity <= 10 {
            Severity::Low
        } else if 11 <= self.file_complexity && self.file_complexity <= 20 {
            Severity::Moderate
        } else if 21 <= self.file_complexity && self.file_complexity <= 50 {
            Severity::High
        } else {
            Severity::VeryHigh
        }
    }
}

} // verus!
