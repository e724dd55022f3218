//! Query tokenizer and parser.
//!
//! The grammar is written out as spec functions over the model of the token
//! sequence (`tokenize_from`, `and_loop`, `or_expr`, `or_loop`, `not_expr`,
//! `primary`, `group`, `term_spec`), and the executable parser is proved to
//! compute them. Token positions are byte offsets into the query text.

use vstd::prelude::*;
use crate::error::{query_error, FilesystemError, Result};
use crate::query::date_filter::{always_resolves, date_query_syntax, unresolvable, valid_date, CivilDate, DatePredicate};
use crate::query::expression::{
    all_dates_resolved, dates_resolved, exprs_view, has_terms, lemma_all_dates_resolved, lemma_exprs_view, query_expression_has_terms,
    term_dates_resolved, QueryExpression,
    QueryFilter, QueryTerm, SpecExpr, SpecFilter, SpecTerm,
};
use crate::query::path::{expanded_scope, normalize_scope_filter_path, normalized_path};
use crate::query::size::{size_predicate_of, SizePredicate};
use crate::query::type_filter::{lookup_type_filter_target, type_target_of};
use crate::query::size::first_char_index;
use crate::strings::{
    chars_eq_str, chars_of, concat_strs, find_char, is_whitespace, is_ws, lower_chars, lower_seq,
    nonempty, opt_str_view, split_chars, split_char, str_views, string_of, sub_chars, trim, trim_chars,
    vec_views,
};

verus! {

// ---------------------------------------------------------------------------
// Tokens
// ---------------------------------------------------------------------------

/// A token with its byte offset in the query text.
#[derive(Debug)]
pub struct QueryToken {
    pub kind: QueryTokenKind,
    pub position: usize,
}

/// The kinds of query tokens.
#[derive(Debug)]
pub enum QueryTokenKind {
    Word(String),
    Phrase(String),
    LParen,
    RParen,
    LAngle,
    RAngle,
    Pipe,
    Bang,
    And,
    Or,
    Not,
}

/// The model of a token kind.
pub enum SpecTokenKind {
    Word(Seq<char>),
    Phrase(Seq<char>),
    LParen,
    RParen,
    LAngle,
    RAngle,
    Pipe,
    Bang,
    And,
    Or,
    Not,
}

/// The model of a token.
pub struct SpecToken {
    pub kind: SpecTokenKind,
    pub position: int,
}

/// The model of a token kind.
pub open spec fn kind_view(k: QueryTokenKind) -> SpecTokenKind {
    match k {
        QueryTokenKind::Word(s) => SpecTokenKind::Word(s@),
        QueryTokenKind::Phrase(s) => SpecTokenKind::Phrase(s@),
        QueryTokenKind::LParen => SpecTokenKind::LParen,
        QueryTokenKind::RParen => SpecTokenKind::RParen,
        QueryTokenKind::LAngle => SpecTokenKind::LAngle,
        QueryTokenKind::RAngle => SpecTokenKind::RAngle,
        QueryTokenKind::Pipe => SpecTokenKind::Pipe,
        QueryTokenKind::Bang => SpecTokenKind::Bang,
        QueryTokenKind::And => SpecTokenKind::And,
        QueryTokenKind::Or => SpecTokenKind::Or,
        QueryTokenKind::Not => SpecTokenKind::Not,
    }
}

/// The model of a token.
pub open spec fn token_view(t: QueryToken) -> SpecToken {
    SpecToken { kind: kind_view(t.kind), position: t.position as int }
}

/// The models of a token sequence.
pub open spec fn tokens_view(s: Seq<QueryToken>) -> Seq<SpecToken> {
    s.map_values(|t: QueryToken| token_view(t))
}

/// The number of bytes of a character in UTF-8.
pub open spec fn utf8_len(c: char) -> nat {
    if (c as u32) < 0x80 {
        1
    } else if (c as u32) < 0x800 {
        2
    } else if (c as u32) < 0x10000 {
        3
    } else {
        4
    }
}

/// The number of bytes of a text in UTF-8.
pub open spec fn byte_len(s: Seq<char>) -> nat
    decreases s.len(),
{
    if s.len() == 0 {
        0
    } else {
        byte_len(s.drop_last()) + utf8_len(s.last())
    }
}

/// The token a punctuation character stands for.
pub open spec fn punct_kind(c: char) -> Option<SpecTokenKind> {
    if c == '(' {
        Some(SpecTokenKind::LParen)
    } else if c == ')' {
        Some(SpecTokenKind::RParen)
    } else if c == '<' {
        Some(SpecTokenKind::LAngle)
    } else if c == '>' {
        Some(SpecTokenKind::RAngle)
    } else if c == '|' {
        Some(SpecTokenKind::Pipe)
    } else if c == '!' {
        Some(SpecTokenKind::Bang)
    } else {
        None
    }
}

/// Where a word that reaches index `j` ends: at whitespace or one of
/// `( ) | !`, and at `<` or `>` unless a `:` came before.
pub open spec fn word_end(s: Seq<char>, j: int, seen_colon: bool) -> int
    decreases s.len() - j,
{
    if j < 0 || j >= s.len() {
        j
    } else {
        let c = s[j];
        let seen = seen_colon || c == ':';
        if is_ws(c) || c == '(' || c == ')' || c == '|' || c == '!' {
            j
        } else if !seen && (c == '<' || c == '>') {
            j
        } else {
            word_end(s, j + 1, seen)
        }
    }
}

/// The token a word stands for: the keywords `and`, `or`, `not` in any
/// ASCII case, else a plain word.
pub open spec fn word_kind(raw: Seq<char>) -> SpecTokenKind {
    if lower_seq(raw) == "and"@ {
        SpecTokenKind::And
    } else if lower_seq(raw) == "or"@ {
        SpecTokenKind::Or
    } else if lower_seq(raw) == "not"@ {
        SpecTokenKind::Not
    } else {
        SpecTokenKind::Word(raw)
    }
}

/// A quoted phrase read from index `j` on: a backslash makes the next
/// character literal, a `"` closes it. Gives the phrase and the index after
/// the closing quote; none when it is not closed.
pub open spec fn quoted(s: Seq<char>, j: int, acc: Seq<char>, escaped: bool) -> Option<(Seq<char>, int)>
    decreases s.len() - j,
{
    if j < 0 || j >= s.len() {
        None
    } else if escaped {
        quoted(s, j + 1, acc.push(s[j]), false)
    } else if s[j] == '\\' {
        quoted(s, j + 1, acc, true)
    } else if s[j] == '"' {
        Some((acc, j + 1))
    } else {
        quoted(s, j + 1, acc.push(s[j]), false)
    }
}

/// The tokens of `s` from index `i` on, after those in `acc`; none when a
/// quote is left open.
pub open spec fn tokenize_from(s: Seq<char>, i: int, acc: Seq<SpecToken>) -> Option<Seq<SpecToken>>
    decreases s.len() - i,
{
    if i < 0 || i >= s.len() {
        Some(acc)
    } else {
        let c = s[i];
        let pos = byte_len(s.subrange(0, i)) as int;
        if is_ws(c) {
            tokenize_from(s, i + 1, acc)
        } else {
            match punct_kind(c) {
                Some(k) => tokenize_from(s, i + 1, acc.push(SpecToken { kind: k, position: pos })),
                None => if c == '"' {
                    match quoted(s, i + 1, Seq::empty(), false) {
                        None => None,
                        Some((p, j)) => if j <= i || j > s.len() {
                            None
                        } else {
                            tokenize_from(s, j, acc.push(SpecToken { kind: SpecTokenKind::Phrase(p), position: pos }))
                        },
                    }
                } else {
                    let j = word_end(s, i, false);
                    if j <= i || j > s.len() {
                        None
                    } else {
                        tokenize_from(s, j, acc.push(SpecToken { kind: word_kind(s.subrange(i, j)), position: pos }))
                    }
                },
            }
        }
    }
}

/// The byte position at which tokenizing from `i` fails (an opening quote
/// that is never closed), or -1 when it does not fail.
pub open spec fn tokenize_failure_from(s: Seq<char>, i: int) -> int
    decreases s.len() - i,
{
    if i < 0 || i >= s.len() {
        -1
    } else {
        let c = s[i];
        let pos = byte_len(s.subrange(0, i)) as int;
        if is_ws(c) {
            tokenize_failure_from(s, i + 1)
        } else {
            match punct_kind(c) {
                Some(k) => tokenize_failure_from(s, i + 1),
                None => if c == '"' {
                    match quoted(s, i + 1, Seq::empty(), false) {
                        None => pos,
                        Some((p, j)) => if j <= i || j > s.len() {
                            pos
                        } else {
                            tokenize_failure_from(s, j)
                        },
                    }
                } else {
                    let j = word_end(s, i, false);
                    if j <= i || j > s.len() {
                        pos
                    } else {
                        tokenize_failure_from(s, j)
                    }
                },
            }
        }
    }
}

/// The byte position of the quote that leaves a query text unclosed.
pub open spec fn tokenize_failure(s: Seq<char>) -> int {
    tokenize_failure_from(s, 0)
}

/// The tokens of a query text.
pub open spec fn tokenize(s: Seq<char>) -> Option<Seq<SpecToken>> {
    tokenize_from(s, 0, Seq::empty())
}

/// A word reaching `j` ends at `j` or later, within the text.
pub proof fn lemma_word_end_bounds(s: Seq<char>, j: int, seen: bool)
    requires
        0 <= j <= s.len(),
    ensures
        j <= word_end(s, j, seen) <= s.len(),
    decreases s.len() - j,
{
    if j < s.len() {
        lemma_word_end_bounds(s, j + 1, seen || s[j] == ':');
    }
}

/// `byte_len` of a one-longer prefix.
pub proof fn lemma_byte_len_step(s: Seq<char>, i: int)
    requires
        0 <= i < s.len(),
    ensures
        byte_len(s.subrange(0, i + 1)) == byte_len(s.subrange(0, i)) + utf8_len(s[i]),
{
    assert(s.subrange(0, i + 1).drop_last() =~= s.subrange(0, i));
}

/// A prefix has no more bytes than the whole.
pub proof fn lemma_byte_len_prefix(s: Seq<char>, i: int)
    requires
        0 <= i <= s.len(),
    ensures
        byte_len(s.subrange(0, i)) <= byte_len(s),
    decreases s.len(),
{
    if i == s.len() {
        assert(s.subrange(0, i) =~= s);
    } else {
        lemma_byte_len_prefix(s.drop_last(), i);
        assert(s.drop_last().subrange(0, i) =~= s.subrange(0, i));
    }
}

/// The number of bytes of a character in UTF-8, as `char::len_utf8`.
fn char_utf8_len(c: char) -> (r: usize)
    ensures
        r == utf8_len(c),
{
    let v = c as u32;
    if v < 0x80 {
        1
    } else if v < 0x800 {
        2
    } else if v < 0x10000 {
        3
    } else {
        4
    }
}

/// The character of a decimal digit.
pub open spec fn digit_char(d: nat) -> char {
    (48 + d) as char
}

/// The decimal digits of a number, without padding.
pub open spec fn decimal(n: nat) -> Seq<char>
    decreases n,
{
    if n < 10 {
        seq![digit_char(n)]
    } else {
        decimal(n / 10).push(digit_char(n % 10))
    }
}

/// An error message naming a byte position: `<text> near byte <n>`.
pub open spec fn near_message(text: Seq<char>, position: nat) -> Seq<char> {
    text + " near byte "@ + decimal(position)
}

/// The character of digit `d`.
fn digit_of(d: usize) -> (r: char)
    requires
        d < 10,
    ensures
        r == digit_char(d as nat),
{
    let b: u8 = 48u8 + (d as u8);
    b as char
}

/// The decimal digits of `n`.
pub fn decimal_chars(n: usize) -> (r: Vec<char>)
    ensures
        r@ == decimal(n as nat),
{
    let mut m: usize = n;
    let mut acc: Vec<char> = Vec::new();
    assert(decimal(n as nat) == decimal(m as nat) + acc@);
    while m >= 10
        invariant
            decimal(n as nat) == decimal(m as nat) + acc@,
        decreases m,
    {
        let d = digit_of(m % 10);
        let ghost old_acc = acc@;
        acc.insert(0, d);
        proof {
            assert(decimal(m as nat) == decimal((m / 10) as nat).push(digit_char((m % 10) as nat)));
            assert(acc@ =~= seq![d] + old_acc);
            assert(decimal(m as nat) + old_acc =~= decimal((m / 10) as nat) + acc@);
        }
        m = m / 10;
    }
    let d = digit_of(m);
    let ghost old_acc = acc@;
    acc.insert(0, d);
    proof {
        assert(decimal(m as nat) == seq![digit_char(m as nat)]);
        assert(acc@ =~= decimal(m as nat) + old_acc);
    }
    acc
}

/// The message `<text> near byte <position>`.
fn message_near(text: &str, position: usize) -> (r: String)
    ensures
        r@ == near_message(text@, position as nat),
{
    let head = concat_strs(text, " near byte ");
    let digits = string_of(&decimal_chars(position));
    concat_strs(head.as_str(), digits.as_str())
}

/// Reads a quoted phrase whose opening quote is at `start`.
fn consume_quoted_phrase(v: &Vec<char>, start: usize) -> (r: Option<(Vec<char>, usize)>)
    requires
        start < v.len(),
    ensures
        match r {
            Some((p, j)) => quoted(v@, start + 1, Seq::empty(), false) == Some((p@, j as int)) && start < j <= v.len(),
            None => quoted(v@, start + 1, Seq::empty(), false) is None,
        },
{
    let mut j = start + 1;
    let mut phrase: Vec<char> = Vec::new();
    let mut escaped = false;
    while j < v.len()
        invariant
            start < j <= v.len(),
            quoted(v@, start + 1, Seq::empty(), false) == quoted(v@, j as int, phrase@, escaped),
        decreases v.len() - j,
    {
        let ch = v[j];
        if escaped {
            phrase.push(ch);
            escaped = false;
        } else if ch == '\\' {
            escaped = true;
        } else if ch == '"' {
            return Some((phrase, j + 1));
        } else {
            phrase.push(ch);
        }
        j = j + 1;
    }
    None
}

/// The end of a word that starts at `start`.
fn scan_word_end(v: &Vec<char>, start: usize) -> (r: usize)
    requires
        start <= v.len(),
    ensures
        r as int == word_end(v@, start as int, false),
        start <= r <= v.len(),
{
    let mut end = start;
    let mut seen_colon = false;
    let mut done = false;
    while !done && end < v.len()
        invariant
            start <= end <= v.len(),
            !done ==> word_end(v@, start as int, false) == word_end(v@, end as int, seen_colon),
            done ==> word_end(v@, start as int, false) == end,
        decreases v.len() - end + (if done { 0int } else { 1int }),
    {
        let next = v[end];
        if next == ':' {
            seen_colon = true;
        }
        if is_whitespace(next) || next == '(' || next == ')' || next == '|' || next == '!' {
            done = true;
        } else if !seen_colon && (next == '<' || next == '>') {
            done = true;
        } else {
            end = end + 1;
        }
    }
    end
}

/// The token of a word.
fn word_token_kind(raw: &Vec<char>) -> (r: QueryTokenKind)
    ensures
        kind_view(r) == word_kind(raw@),
{
    let lower = lower_chars(raw);
    if chars_eq_str(&lower, "and") {
        QueryTokenKind::And
    } else if chars_eq_str(&lower, "or") {
        QueryTokenKind::Or
    } else if chars_eq_str(&lower, "not") {
        QueryTokenKind::Not
    } else {
        QueryTokenKind::Word(string_of(raw))
    }
}

/// The token of a punctuation character.
fn punct_token_kind(c: char) -> (r: Option<QueryTokenKind>)
    ensures
        match r {
            Some(k) => punct_kind(c) == Some(kind_view(k)),
            None => punct_kind(c) is None,
        },
{
    if c == '(' {
        Some(QueryTokenKind::LParen)
    } else if c == ')' {
        Some(QueryTokenKind::RParen)
    } else if c == '<' {
        Some(QueryTokenKind::LAngle)
    } else if c == '>' {
        Some(QueryTokenKind::RAngle)
    } else if c == '|' {
        Some(QueryTokenKind::Pipe)
    } else if c == '!' {
        Some(QueryTokenKind::Bang)
    } else {
        None
    }
}

/// Splits a query text into tokens.
pub fn tokenize_query_input(input: &str) -> (r: Result<Vec<QueryToken>>)
    requires
        byte_len(input@) <= usize::MAX,
    ensures
        match r {
            Ok(t) => tokenize(input@) == Some(tokens_view(t@)),
            Err(e) => tokenize(input@) is None && (e matches FilesystemError::QueryParse(m)
                && tokenize_failure(input@) >= 0
                && m@ == near_message("missing closing quote"@, tokenize_failure(input@) as nat)),
        },
{
    let v = chars_of(input);
    let mut tokens: Vec<QueryToken> = Vec::new();
    let mut i: usize = 0;
    let mut cursor: usize = 0;
    assert(tokens_view(tokens@) =~= Seq::<SpecToken>::empty());
    assert(v@.subrange(0, 0) =~= Seq::<char>::empty());
    while i < v.len()
        invariant
            i <= v.len(),
            v@ == input@,
            byte_len(v@) <= usize::MAX,
            cursor == byte_len(v@.subrange(0, i as int)),
            tokenize(v@) == tokenize_from(v@, i as int, tokens_view(tokens@)),
            tokenize_failure(v@) == tokenize_failure_from(v@, i as int),
        decreases v.len() - i,
    {
        let ch = v[i];
        let position = cursor;
        if is_whitespace(ch) {
            proof {
                lemma_byte_len_step(v@, i as int);
                lemma_byte_len_prefix(v@, i + 1);
            }
            cursor = cursor + char_utf8_len(ch);
            i = i + 1;
        } else {
            match punct_token_kind(ch) {
                Some(kind) => {
                    let ghost old_tokens = tokens@;
                    tokens.push(QueryToken { kind, position });
                    proof {
                        assert(tokens_view(tokens@) =~= tokens_view(old_tokens).push(
                            SpecToken { kind: kind_view(kind), position: position as int },
                        ));
                        lemma_byte_len_step(v@, i as int);
                        lemma_byte_len_prefix(v@, i + 1);
                    }
                    cursor = cursor + 1;
                    i = i + 1;
                },
                None => {
                    let (kind, next) = if ch == '"' {
                        match consume_quoted_phrase(&v, i) {
                            Some((p, j)) => (QueryTokenKind::Phrase(string_of(&p)), j),
                            None => {
                                let m = message_near("missing closing quote", position);
                                return Err(FilesystemError::QueryParse(m));
                            },
                        }
                    } else {
                        let end = scan_word_end(&v, i);
                        let raw = sub_chars(&v, i, end);
                        (word_token_kind(&raw), end)
                    };
                    proof {
                        if ch != '"' {
                            lemma_word_end_bounds(v@, i + 1, ch == ':');
                            assert(next > i);
                        }
                    }
                    let ghost old_tokens = tokens@;
                    tokens.push(QueryToken { kind, position });
                    proof {
                        assert(tokens_view(tokens@) =~= tokens_view(old_tokens).push(
                            SpecToken { kind: kind_view(kind), position: position as int },
                        ));
                    }
                    let mut k = i;
                    while k < next
                        invariant
                            i <= k <= next <= v.len(),
                            byte_len(v@) <= usize::MAX,
                            cursor == byte_len(v@.subrange(0, k as int)),
                        decreases next - k,
                    {
                        proof {
                            lemma_byte_len_step(v@, k as int);
                            lemma_byte_len_prefix(v@, k + 1);
                        }
                        cursor = cursor + char_utf8_len(v[k]);
                        k = k + 1;
                    }
                    i = next;
                },
            }
        }
    }
    Ok(tokens)
}

// ---------------------------------------------------------------------------
// Terms
// ---------------------------------------------------------------------------

/// The text without its leading dots.
pub open spec fn strip_dots(s: Seq<char>) -> Seq<char>
    decreases s.len(),
{
    if s.len() > 0 && s[0] == '.' {
        strip_dots(s.drop_first())
    } else {
        s
    }
}

/// An `ext:` entry: trimmed, without leading dots, lowercased; none when
/// nothing is left.
pub open spec fn normalize_ext(raw: Seq<char>) -> Option<Seq<char>> {
    let t = strip_dots(trim(raw));
    if t.len() == 0 {
        None
    } else {
        Some(lower_seq(t))
    }
}

/// The normalized entries of a list, those that normalize to nothing left
/// out.
pub open spec fn normalized_exts(v: Seq<Seq<char>>) -> Seq<Seq<char>>
    decreases v.len(),
{
    if v.len() == 0 {
        Seq::empty()
    } else {
        match normalize_ext(v.last()) {
            Some(x) => normalized_exts(v.drop_last()).push(x),
            None => normalized_exts(v.drop_last()),
        }
    }
}

/// The trimmed pieces.
pub open spec fn trims(v: Seq<Seq<char>>) -> Seq<Seq<char>> {
    v.map_values(|t: Seq<char>| trim(t))
}

/// A filter argument, none when empty.
pub open spec fn opt_arg(arg: Seq<char>) -> Option<Seq<char>> {
    if arg.len() == 0 {
        None
    } else {
        Some(arg)
    }
}

/// The normalized folder of a scope filter argument (`parent:`, `in:`,
/// `nosubfolders:`).
pub open spec fn scope_path(arg: Seq<char>, home: Option<Seq<char>>) -> Option<Seq<char>> {
    let t = trim(arg);
    if t.len() == 0 {
        None
    } else {
        match expanded_scope(t, home) {
            Some(e) => Some(normalized_path(e)),
            None => None,
        }
    }
}

/// The names of the date filters.
pub open spec fn is_date_filter_name(name: Seq<char>) -> bool {
    name == "dm"@ || name == "datemodified"@ || name == "dc"@ || name == "datecreated"@
}

/// The term of a `name:argument` word.
pub open spec fn filter_term_spec(raw: Seq<char>, name: Seq<char>, arg: Seq<char>, home: Option<Seq<char>>) -> Option<SpecTerm> {
    if name == "ext"@ {
        if arg.len() == 0 {
            None
        } else {
            let vs = normalized_exts(split_char(arg, ';'));
            if vs.len() == 0 {
                None
            } else {
                Some(SpecTerm::Filter(SpecFilter::Extension(vs)))
            }
        }
    } else if name == "type"@ {
        if arg.len() == 0 {
            None
        } else {
            match type_target_of(lower_seq(arg)) {
                Some(t) => Some(SpecTerm::Filter(SpecFilter::Type(t))),
                None => None,
            }
        }
    } else if name == "size"@ {
        match size_predicate_of(arg) {
            Some(p) => Some(SpecTerm::Filter(SpecFilter::Size(p))),
            None => None,
        }
    } else if name == "audio"@ || name == "video"@ || name == "doc"@ || name == "exe"@ {
        match type_target_of(name) {
            Some(t) => Some(SpecTerm::Filter(SpecFilter::TypeMacro { target: t, argument: opt_arg(arg) })),
            None => None,
        }
    } else if name == "file"@ {
        Some(SpecTerm::Filter(SpecFilter::File { argument: opt_arg(arg) }))
    } else if name == "folder"@ {
        Some(SpecTerm::Filter(SpecFilter::Folder { argument: opt_arg(arg) }))
    } else if name == "parent"@ {
        match scope_path(arg, home) {
            Some(p) => Some(SpecTerm::Filter(SpecFilter::Parent { path: p })),
            None => None,
        }
    } else if name == "in"@ || name == "infolder"@ {
        match scope_path(arg, home) {
            Some(p) => Some(SpecTerm::Filter(SpecFilter::InFolder { path: p })),
            None => None,
        }
    } else if name == "nosubfolders"@ {
        match scope_path(arg, home) {
            Some(p) => Some(SpecTerm::Filter(SpecFilter::NoSubfolders { path: p })),
            None => None,
        }
    } else if name == "content"@ {
        if arg.len() == 0 {
            None
        } else {
            Some(SpecTerm::Filter(SpecFilter::Content { needle: arg }))
        }
    } else if name == "tag"@ || name == "tags"@ {
        if arg.len() == 0 {
            None
        } else {
            let ts = nonempty(trims(split_char(arg, ';')));
            if ts.len() == 0 {
                None
            } else {
                Some(SpecTerm::Filter(SpecFilter::Tag { tags: ts }))
            }
        }
    } else if name == "dm"@ || name == "datemodified"@ {
        match date_query_syntax(arg) {
            Some(q) => Some(SpecTerm::Filter(SpecFilter::DateModified(q))),
            None => None,
        }
    } else if name == "dc"@ || name == "datecreated"@ {
        match date_query_syntax(arg) {
            Some(q) => Some(SpecTerm::Filter(SpecFilter::DateCreated(q))),
            None => None,
        }
    } else {
        Some(SpecTerm::Text(raw))
    }
}

/// `content:` and `tag:` words with nothing after the colon read as no
/// term.
#[verifier::rlimit(50)]
proof fn lemma_empty_argument_word(raw: Seq<char>, name: Seq<char>, arg: Seq<char>, h: Option<Seq<char>>)
    requires
        arg.len() == 0,
        name == "content"@ || name == "tag"@ || name == "tags"@,
    ensures
        filter_term_spec(raw, name, arg, h) is None,
{
    reveal_strlit("ext");
    reveal_strlit("type");
    reveal_strlit("size");
    reveal_strlit("audio");
    reveal_strlit("video");
    reveal_strlit("doc");
    reveal_strlit("exe");
    reveal_strlit("file");
    reveal_strlit("folder");
    reveal_strlit("parent");
    reveal_strlit("in");
    reveal_strlit("infolder");
    reveal_strlit("nosubfolders");
    reveal_strlit("content");
    reveal_strlit("tag");
    reveal_strlit("tags");
    assert(name != "ext"@) by {
        if name == "ext"@ {
            assert(name[0] == "ext"@[0] && name[1] == "ext"@[1]);
        }
    }
    assert(name != "type"@) by {
        if name == "type"@ {
            assert(name[0] == "type"@[0] && name[1] == "type"@[1]);
        }
    }
    assert(name != "size"@) by {
        if name == "size"@ {
            assert(name[0] == "size"@[0] && name[1] == "size"@[1]);
        }
    }
    assert(name != "audio"@) by {
        if name == "audio"@ {
            assert(name[0] == "audio"@[0] && name[1] == "audio"@[1]);
        }
    }
    assert(name != "video"@) by {
        if name == "video"@ {
            assert(name[0] == "video"@[0] && name[1] == "video"@[1]);
        }
    }
    assert(name != "doc"@) by {
        if name == "doc"@ {
            assert(name[0] == "doc"@[0] && name[1] == "doc"@[1]);
        }
    }
    assert(name != "exe"@) by {
        if name == "exe"@ {
            assert(name[0] == "exe"@[0] && name[1] == "exe"@[1]);
        }
    }
    assert(name != "file"@) by {
        if name == "file"@ {
            assert(name[0] == "file"@[0] && name[1] == "file"@[1]);
        }
    }
    assert(name != "folder"@) by {
        if name == "folder"@ {
            assert(name[0] == "folder"@[0] && name[1] == "folder"@[1]);
        }
    }
    assert(name != "parent"@) by {
        if name == "parent"@ {
            assert(name[0] == "parent"@[0] && name[1] == "parent"@[1]);
        }
    }
    assert(name != "in"@) by {
        if name == "in"@ {
            assert(name[0] == "in"@[0] && name[1] == "in"@[1]);
        }
    }
    assert(name != "infolder"@) by {
        if name == "infolder"@ {
            assert(name[0] == "infolder"@[0] && name[1] == "infolder"@[1]);
        }
    }
    assert(name != "nosubfolders"@) by {
        if name == "nosubfolders"@ {
            assert(name[0] == "nosubfolders"@[0] && name[1] == "nosubfolders"@[1]);
        }
    }
}

/// The date filter names come after every other filter name, so a date
/// word reads as its date filter.
#[verifier::rlimit(50)]
proof fn lemma_date_filter_word(raw: Seq<char>, name: Seq<char>, arg: Seq<char>, h: Option<Seq<char>>)
    requires
        is_date_filter_name(name),
    ensures
        filter_term_spec(raw, name, arg, h) == match date_query_syntax(arg) {
            Some(q) => Some(if name == "dc"@ || name == "datecreated"@ {
                SpecTerm::Filter(SpecFilter::DateCreated(q))
            } else {
                SpecTerm::Filter(SpecFilter::DateModified(q))
            }),
            None => None,
        },
{
    reveal_strlit("ext");
    reveal_strlit("type");
    reveal_strlit("size");
    reveal_strlit("audio");
    reveal_strlit("video");
    reveal_strlit("doc");
    reveal_strlit("exe");
    reveal_strlit("file");
    reveal_strlit("folder");
    reveal_strlit("parent");
    reveal_strlit("in");
    reveal_strlit("infolder");
    reveal_strlit("nosubfolders");
    reveal_strlit("content");
    reveal_strlit("tag");
    reveal_strlit("tags");
    reveal_strlit("dm");
    reveal_strlit("datemodified");
    reveal_strlit("dc");
    reveal_strlit("datecreated");
    assert(name != "ext"@) by {
        if name == "ext"@ {
            assert(name[0] == "ext"@[0] && name[1] == "ext"@[1]);
        }
    }
    assert(name != "type"@) by {
        if name == "type"@ {
            assert(name[0] == "type"@[0] && name[1] == "type"@[1]);
        }
    }
    assert(name != "size"@) by {
        if name == "size"@ {
            assert(name[0] == "size"@[0] && name[1] == "size"@[1]);
        }
    }
    assert(name != "audio"@) by {
        if name == "audio"@ {
            assert(name[0] == "audio"@[0] && name[1] == "audio"@[1]);
        }
    }
    assert(name != "video"@) by {
        if name == "video"@ {
            assert(name[0] == "video"@[0] && name[1] == "video"@[1]);
        }
    }
    assert(name != "doc"@) by {
        if name == "doc"@ {
            assert(name[0] == "doc"@[0] && name[1] == "doc"@[1]);
        }
    }
    assert(name != "exe"@) by {
        if name == "exe"@ {
            assert(name[0] == "exe"@[0] && name[1] == "exe"@[1]);
        }
    }
    assert(name != "file"@) by {
        if name == "file"@ {
            assert(name[0] == "file"@[0] && name[1] == "file"@[1]);
        }
    }
    assert(name != "folder"@) by {
        if name == "folder"@ {
            assert(name[0] == "folder"@[0] && name[1] == "folder"@[1]);
        }
    }
    assert(name != "parent"@) by {
        if name == "parent"@ {
            assert(name[0] == "parent"@[0] && name[1] == "parent"@[1]);
        }
    }
    assert(name != "in"@) by {
        if name == "in"@ {
            assert(name[0] == "in"@[0] && name[1] == "in"@[1]);
        }
    }
    assert(name != "infolder"@) by {
        if name == "infolder"@ {
            assert(name[0] == "infolder"@[0] && name[1] == "infolder"@[1]);
        }
    }
    assert(name != "nosubfolders"@) by {
        if name == "nosubfolders"@ {
            assert(name[0] == "nosubfolders"@[0] && name[1] == "nosubfolders"@[1]);
        }
    }
    assert(name != "content"@) by {
        if name == "content"@ {
            assert(name[0] == "content"@[0] && name[1] == "content"@[1]);
        }
    }
    assert(name != "tag"@) by {
        if name == "tag"@ {
            assert(name[0] == "tag"@[0] && name[1] == "tag"@[1]);
        }
    }
    assert(name != "tags"@) by {
        if name == "tags"@ {
            assert(name[0] == "tags"@[0] && name[1] == "tags"@[1]);
        }
    }
    if name == "dc"@ || name == "datecreated"@ {
        assert(name != "dm"@) by {
            if name == "dm"@ {
                assert(name[0] == "dm"@[0] && name[1] == "dm"@[1]);
            }
        }
        assert(name != "datemodified"@) by {
            if name == "datemodified"@ {
                assert(name.len() == "datemodified"@.len() && name[4] == "datemodified"@[4]);
            }
        }
    }
}

/// A word `name:argument` with a name free of `:` and already lowercase
/// reads as the filter term of that name and the trimmed argument.
proof fn lemma_named_word(name: Seq<char>, arg: Seq<char>, h: Option<Seq<char>>)
    requires
        name.len() > 0,
        !name.contains(':'),
        lower_seq(name) == name,
    ensures
        term_spec(SpecTokenKind::Word(name + seq![':'] + arg), h) == filter_term_spec(name + seq![':'] + arg, name,
            trim(arg), h),
{
    let raw = name + seq![':'] + arg;
    let k = name.len() as int;
    assert(raw[k] == ':');
    assert forall|j: int| 0 <= j < k implies raw[j] != ':' by {
        assert(raw[j] == name[j]);
        if raw[j] == ':' {
            assert(name.contains(':'));
        }
    }
    lemma_first_char_index(raw, ':', k);
    assert(raw.subrange(0, k) =~= name);
    assert(raw.subrange(k + 1, raw.len() as int) =~= arg);
    reveal(term_spec);
}

/// The extension, type, size and type-macro names come first, so such a
/// word reads as its own filter.
#[verifier::rlimit(40)]
proof fn lemma_kind_filter_word(raw: Seq<char>, name: Seq<char>, arg: Seq<char>, h: Option<Seq<char>>)
    ensures
        name == "ext"@ ==> filter_term_spec(raw, name, arg, h) == (if arg.len() == 0 {
            None
        } else if normalized_exts(split_char(arg, ';')).len() == 0 {
            None
        } else {
            Some(SpecTerm::Filter(SpecFilter::Extension(normalized_exts(split_char(arg, ';')))))
        }),
        name == "type"@ ==> filter_term_spec(raw, name, arg, h) == (if arg.len() == 0 {
            None
        } else {
            match type_target_of(lower_seq(arg)) {
                Some(t) => Some(SpecTerm::Filter(SpecFilter::Type(t))),
                None => None,
            }
        }),
        name == "size"@ ==> filter_term_spec(raw, name, arg, h) == match size_predicate_of(arg) {
            Some(p) => Some(SpecTerm::Filter(SpecFilter::Size(p))),
            None => None,
        },
        (name == "audio"@ || name == "video"@ || name == "doc"@ || name == "exe"@) ==> filter_term_spec(raw, name, arg, h)
            == match type_target_of(name) {
            Some(t) => Some(SpecTerm::Filter(SpecFilter::TypeMacro { target: t, argument: opt_arg(arg) })),
            None => None,
        },
{
    reveal_strlit("ext");
    reveal_strlit("type");
    reveal_strlit("size");
    reveal_strlit("audio");
    reveal_strlit("video");
    reveal_strlit("doc");
    reveal_strlit("exe");
    if name == "type"@ {
        assert("type"@ != "ext"@) by {
            if "type"@ == "ext"@ {
                assert("type"@.len() == "ext"@.len());
            }
        }
    }
    if name == "size"@ {
        assert("size"@ != "ext"@) by {
            if "size"@ == "ext"@ {
                assert("size"@.len() == "ext"@.len());
            }
        }
        assert("size"@ != "type"@) by {
            if "size"@ == "type"@ {
                assert("size"@[0] == "type"@[0]);
            }
        }
    }
    if name == "audio"@ {
        assert("audio"@ != "ext"@) by {
            if "audio"@ == "ext"@ {
                assert("audio"@.len() == "ext"@.len());
            }
        }
        assert("audio"@ != "type"@) by {
            if "audio"@ == "type"@ {
                assert("audio"@.len() == "type"@.len());
            }
        }
        assert("audio"@ != "size"@) by {
            if "audio"@ == "size"@ {
                assert("audio"@.len() == "size"@.len());
            }
        }
    }
    if name == "video"@ {
        assert("video"@ != "ext"@) by {
            if "video"@ == "ext"@ {
                assert("video"@.len() == "ext"@.len());
            }
        }
        assert("video"@ != "type"@) by {
            if "video"@ == "type"@ {
                assert("video"@.len() == "type"@.len());
            }
        }
        assert("video"@ != "size"@) by {
            if "video"@ == "size"@ {
                assert("video"@.len() == "size"@.len());
            }
        }
    }
    if name == "doc"@ {
        assert("doc"@ != "ext"@) by {
            if "doc"@ == "ext"@ {
                assert("doc"@[0] == "ext"@[0]);
            }
        }
        assert("doc"@ != "type"@) by {
            if "doc"@ == "type"@ {
                assert("doc"@.len() == "type"@.len());
            }
        }
        assert("doc"@ != "size"@) by {
            if "doc"@ == "size"@ {
                assert("doc"@.len() == "size"@.len());
            }
        }
    }
    if name == "exe"@ {
        assert("exe"@ != "ext"@) by {
            if "exe"@ == "ext"@ {
                assert("exe"@[2] == "ext"@[2]);
            }
        }
        assert("exe"@ != "type"@) by {
            if "exe"@ == "type"@ {
                assert("exe"@.len() == "type"@.len());
            }
        }
        assert("exe"@ != "size"@) by {
            if "exe"@ == "size"@ {
                assert("exe"@.len() == "size"@.len());
            }
        }
    }
}

/// The extension, type, size and type-macro words name their filter:
/// `ext:` an extension filter on the normalized extensions it lists,
/// `type:` a type filter on the category its argument names, `size:` a
/// size filter on the predicate its argument reads as, and `audio:`,
/// `video:`, `doc:` and `exe:` a type macro of their own category, with
/// the trimmed argument (none when it is empty).
pub proof fn law_kind_words_name_their_filter(arg: Seq<char>, h: Option<Seq<char>>)
    ensures
        term_spec(SpecTokenKind::Word("ext"@ + seq![':'] + arg), h) == (if trim(arg).len() == 0 {
            None
        } else if normalized_exts(split_char(trim(arg), ';')).len() == 0 {
            None
        } else {
            Some(SpecTerm::Filter(SpecFilter::Extension(normalized_exts(split_char(trim(arg), ';')))))
        }),
        term_spec(SpecTokenKind::Word("type"@ + seq![':'] + arg), h) == (if trim(arg).len() == 0 {
            None
        } else {
            match type_target_of(lower_seq(trim(arg))) {
                Some(t) => Some(SpecTerm::Filter(SpecFilter::Type(t))),
                None => None,
            }
        }),
        term_spec(SpecTokenKind::Word("size"@ + seq![':'] + arg), h) == match size_predicate_of(trim(arg)) {
            Some(p) => Some(SpecTerm::Filter(SpecFilter::Size(p))),
            None => None,
        },
        term_spec(SpecTokenKind::Word("audio"@ + seq![':'] + arg), h) == match type_target_of("audio"@) {
            Some(t) => Some(SpecTerm::Filter(SpecFilter::TypeMacro { target: t, argument: opt_arg(trim(arg)) })),
            None => None,
        },
        term_spec(SpecTokenKind::Word("video"@ + seq![':'] + arg), h) == match type_target_of("video"@) {
            Some(t) => Some(SpecTerm::Filter(SpecFilter::TypeMacro { target: t, argument: opt_arg(trim(arg)) })),
            None => None,
        },
        term_spec(SpecTokenKind::Word("doc"@ + seq![':'] + arg), h) == match type_target_of("doc"@) {
            Some(t) => Some(SpecTerm::Filter(SpecFilter::TypeMacro { target: t, argument: opt_arg(trim(arg)) })),
            None => None,
        },
        term_spec(SpecTokenKind::Word("exe"@ + seq![':'] + arg), h) == match type_target_of("exe"@) {
            Some(t) => Some(SpecTerm::Filter(SpecFilter::TypeMacro { target: t, argument: opt_arg(trim(arg)) })),
            None => None,
        },
{
    reveal_strlit("ext");
    assert(lower_seq("ext"@) =~= "ext"@);
    lemma_named_word("ext"@, arg, h);
    lemma_kind_filter_word("ext"@ + seq![':'] + arg, "ext"@, trim(arg), h);
    reveal_strlit("type");
    assert(lower_seq("type"@) =~= "type"@);
    lemma_named_word("type"@, arg, h);
    lemma_kind_filter_word("type"@ + seq![':'] + arg, "type"@, trim(arg), h);
    reveal_strlit("size");
    assert(lower_seq("size"@) =~= "size"@);
    lemma_named_word("size"@, arg, h);
    lemma_kind_filter_word("size"@ + seq![':'] + arg, "size"@, trim(arg), h);
    reveal_strlit("audio");
    assert(lower_seq("audio"@) =~= "audio"@);
    lemma_named_word("audio"@, arg, h);
    lemma_kind_filter_word("audio"@ + seq![':'] + arg, "audio"@, trim(arg), h);
    reveal_strlit("video");
    assert(lower_seq("video"@) =~= "video"@);
    lemma_named_word("video"@, arg, h);
    lemma_kind_filter_word("video"@ + seq![':'] + arg, "video"@, trim(arg), h);
    reveal_strlit("doc");
    assert(lower_seq("doc"@) =~= "doc"@);
    lemma_named_word("doc"@, arg, h);
    lemma_kind_filter_word("doc"@ + seq![':'] + arg, "doc"@, trim(arg), h);
    reveal_strlit("exe");
    assert(lower_seq("exe"@) =~= "exe"@);
    lemma_named_word("exe"@, arg, h);
    lemma_kind_filter_word("exe"@ + seq![':'] + arg, "exe"@, trim(arg), h);
}

/// The filter names from `file` to `content` are read before and apart
/// from every later name, so such a word reads as its own filter.
#[verifier::rlimit(60)]
proof fn lemma_simple_filter_word(raw: Seq<char>, name: Seq<char>, arg: Seq<char>, h: Option<Seq<char>>)
    ensures
        name == "file"@ ==> filter_term_spec(raw, name, arg, h) == Some(SpecTerm::Filter(SpecFilter::File {
            argument: opt_arg(arg),
        })),
        name == "folder"@ ==> filter_term_spec(raw, name, arg, h) == Some(SpecTerm::Filter(SpecFilter::Folder {
            argument: opt_arg(arg),
        })),
        name == "parent"@ ==> filter_term_spec(raw, name, arg, h) == match scope_path(arg, h) {
            Some(p) => Some(SpecTerm::Filter(SpecFilter::Parent { path: p })),
            None => None,
        },
        (name == "in"@ || name == "infolder"@) ==> filter_term_spec(raw, name, arg, h) == match scope_path(arg, h) {
            Some(p) => Some(SpecTerm::Filter(SpecFilter::InFolder { path: p })),
            None => None,
        },
        name == "nosubfolders"@ ==> filter_term_spec(raw, name, arg, h) == match scope_path(arg, h) {
            Some(p) => Some(SpecTerm::Filter(SpecFilter::NoSubfolders { path: p })),
            None => None,
        },
        name == "content"@ ==> filter_term_spec(raw, name, arg, h) == (if arg.len() == 0 {
            None
        } else {
            Some(SpecTerm::Filter(SpecFilter::Content { needle: arg }))
        }),
{
    reveal_strlit("ext");
    reveal_strlit("type");
    reveal_strlit("size");
    reveal_strlit("audio");
    reveal_strlit("video");
    reveal_strlit("doc");
    reveal_strlit("exe");
    reveal_strlit("file");
    reveal_strlit("folder");
    reveal_strlit("parent");
    reveal_strlit("in");
    reveal_strlit("infolder");
    reveal_strlit("nosubfolders");
    reveal_strlit("content");
    reveal_strlit("tag");
    reveal_strlit("tags");
    if name == "file"@ {
        assert("file"@ != "ext"@) by {
            if "file"@ == "ext"@ {
                assert("file"@.len() == "ext"@.len());
            }
        }
        assert("file"@ != "type"@) by {
            if "file"@ == "type"@ {
                assert("file"@[0] == "type"@[0]);
            }
        }
        assert("file"@ != "size"@) by {
            if "file"@ == "size"@ {
                assert("file"@[0] == "size"@[0]);
            }
        }
        assert("file"@ != "audio"@) by {
            if "file"@ == "audio"@ {
                assert("file"@.len() == "audio"@.len());
            }
        }
        assert("file"@ != "video"@) by {
            if "file"@ == "video"@ {
                assert("file"@.len() == "video"@.len());
            }
        }
        assert("file"@ != "doc"@) by {
            if "file"@ == "doc"@ {
                assert("file"@.len() == "doc"@.len());
            }
        }
        assert("file"@ != "exe"@) by {
            if "file"@ == "exe"@ {
                assert("file"@.len() == "exe"@.len());
            }
        }
    }
    if name == "folder"@ {
        assert("folder"@ != "ext"@) by {
            if "folder"@ == "ext"@ {
                assert("folder"@.len() == "ext"@.len());
            }
        }
        assert("folder"@ != "type"@) by {
            if "folder"@ == "type"@ {
                assert("folder"@.len() == "type"@.len());
            }
        }
        assert("folder"@ != "size"@) by {
            if "folder"@ == "size"@ {
                assert("folder"@.len() == "size"@.len());
            }
        }
        assert("folder"@ != "audio"@) by {
            if "folder"@ == "audio"@ {
                assert("folder"@.len() == "audio"@.len());
            }
        }
        assert("folder"@ != "video"@) by {
            if "folder"@ == "video"@ {
                assert("folder"@.len() == "video"@.len());
            }
        }
        assert("folder"@ != "doc"@) by {
            if "folder"@ == "doc"@ {
                assert("folder"@.len() == "doc"@.len());
            }
        }
        assert("folder"@ != "exe"@) by {
            if "folder"@ == "exe"@ {
                assert("folder"@.len() == "exe"@.len());
            }
        }
        assert("folder"@ != "file"@) by {
            if "folder"@ == "file"@ {
                assert("folder"@.len() == "file"@.len());
            }
        }
    }
    if name == "parent"@ {
        assert("parent"@ != "ext"@) by {
            if "parent"@ == "ext"@ {
                assert("parent"@.len() == "ext"@.len());
            }
        }
        assert("parent"@ != "type"@) by {
            if "parent"@ == "type"@ {
                assert("parent"@.len() == "type"@.len());
            }
        }
        assert("parent"@ != "size"@) by {
            if "parent"@ == "size"@ {
                assert("parent"@.len() == "size"@.len());
            }
        }
        assert("parent"@ != "audio"@) by {
            if "parent"@ == "audio"@ {
                assert("parent"@.len() == "audio"@.len());
            }
        }
        assert("parent"@ != "video"@) by {
            if "parent"@ == "video"@ {
                assert("parent"@.len() == "video"@.len());
            }
        }
        assert("parent"@ != "doc"@) by {
            if "parent"@ == "doc"@ {
                assert("parent"@.len() == "doc"@.len());
            }
        }
        assert("parent"@ != "exe"@) by {
            if "parent"@ == "exe"@ {
                assert("parent"@.len() == "exe"@.len());
            }
        }
        assert("parent"@ != "file"@) by {
            if "parent"@ == "file"@ {
                assert("parent"@.len() == "file"@.len());
            }
        }
        assert("parent"@ != "folder"@) by {
            if "parent"@ == "folder"@ {
                assert("parent"@[0] == "folder"@[0]);
            }
        }
    }
    if name == "in"@ {
        assert("in"@ != "ext"@) by {
            if "in"@ == "ext"@ {
                assert("in"@.len() == "ext"@.len());
            }
        }
        assert("in"@ != "type"@) by {
            if "in"@ == "type"@ {
                assert("in"@.len() == "type"@.len());
            }
        }
        assert("in"@ != "size"@) by {
            if "in"@ == "size"@ {
                assert("in"@.len() == "size"@.len());
            }
        }
        assert("in"@ != "audio"@) by {
            if "in"@ == "audio"@ {
                assert("in"@.len() == "audio"@.len());
            }
        }
        assert("in"@ != "video"@) by {
            if "in"@ == "video"@ {
                assert("in"@.len() == "video"@.len());
            }
        }
        assert("in"@ != "doc"@) by {
            if "in"@ == "doc"@ {
                assert("in"@.len() == "doc"@.len());
            }
        }
        assert("in"@ != "exe"@) by {
            if "in"@ == "exe"@ {
                assert("in"@.len() == "exe"@.len());
            }
        }
        assert("in"@ != "file"@) by {
            if "in"@ == "file"@ {
                assert("in"@.len() == "file"@.len());
            }
        }
        assert("in"@ != "folder"@) by {
            if "in"@ == "folder"@ {
                assert("in"@.len() == "folder"@.len());
            }
        }
        assert("in"@ != "parent"@) by {
            if "in"@ == "parent"@ {
                assert("in"@.len() == "parent"@.len());
            }
        }
    }
    if name == "infolder"@ {
        assert("infolder"@ != "ext"@) by {
            if "infolder"@ == "ext"@ {
                assert("infolder"@.len() == "ext"@.len());
            }
        }
        assert("infolder"@ != "type"@) by {
            if "infolder"@ == "type"@ {
                assert("infolder"@.len() == "type"@.len());
            }
        }
        assert("infolder"@ != "size"@) by {
            if "infolder"@ == "size"@ {
                assert("infolder"@.len() == "size"@.len());
            }
        }
        assert("infolder"@ != "audio"@) by {
            if "infolder"@ == "audio"@ {
                assert("infolder"@.len() == "audio"@.len());
            }
        }
        assert("infolder"@ != "video"@) by {
            if "infolder"@ == "video"@ {
                assert("infolder"@.len() == "video"@.len());
            }
        }
        assert("infolder"@ != "doc"@) by {
            if "infolder"@ == "doc"@ {
                assert("infolder"@.len() == "doc"@.len());
            }
        }
        assert("infolder"@ != "exe"@) by {
            if "infolder"@ == "exe"@ {
                assert("infolder"@.len() == "exe"@.len());
            }
        }
        assert("infolder"@ != "file"@) by {
            if "infolder"@ == "file"@ {
                assert("infolder"@.len() == "file"@.len());
            }
        }
        assert("infolder"@ != "folder"@) by {
            if "infolder"@ == "folder"@ {
                assert("infolder"@.len() == "folder"@.len());
            }
        }
        assert("infolder"@ != "parent"@) by {
            if "infolder"@ == "parent"@ {
                assert("infolder"@.len() == "parent"@.len());
            }
        }
        assert("infolder"@ != "in"@) by {
            if "infolder"@ == "in"@ {
                assert("infolder"@.len() == "in"@.len());
            }
        }
    }
    if name == "nosubfolders"@ {
        assert("nosubfolders"@ != "ext"@) by {
            if "nosubfolders"@ == "ext"@ {
                assert("nosubfolders"@.len() == "ext"@.len());
            }
        }
        assert("nosubfolders"@ != "type"@) by {
            if "nosubfolders"@ == "type"@ {
                assert("nosubfolders"@.len() == "type"@.len());
            }
        }
        assert("nosubfolders"@ != "size"@) by {
            if "nosubfolders"@ == "size"@ {
                assert("nosubfolders"@.len() == "size"@.len());
            }
        }
        assert("nosubfolders"@ != "audio"@) by {
            if "nosubfolders"@ == "audio"@ {
                assert("nosubfolders"@.len() == "audio"@.len());
            }
        }
        assert("nosubfolders"@ != "video"@) by {
            if "nosubfolders"@ == "video"@ {
                assert("nosubfolders"@.len() == "video"@.len());
            }
        }
        assert("nosubfolders"@ != "doc"@) by {
            if "nosubfolders"@ == "doc"@ {
                assert("nosubfolders"@.len() == "doc"@.len());
            }
        }
        assert("nosubfolders"@ != "exe"@) by {
            if "nosubfolders"@ == "exe"@ {
                assert("nosubfolders"@.len() == "exe"@.len());
            }
        }
        assert("nosubfolders"@ != "file"@) by {
            if "nosubfolders"@ == "file"@ {
                assert("nosubfolders"@.len() == "file"@.len());
            }
        }
        assert("nosubfolders"@ != "folder"@) by {
            if "nosubfolders"@ == "folder"@ {
                assert("nosubfolders"@.len() == "folder"@.len());
            }
        }
        assert("nosubfolders"@ != "parent"@) by {
            if "nosubfolders"@ == "parent"@ {
                assert("nosubfolders"@.len() == "parent"@.len());
            }
        }
        assert("nosubfolders"@ != "in"@) by {
            if "nosubfolders"@ == "in"@ {
                assert("nosubfolders"@.len() == "in"@.len());
            }
        }
        assert("nosubfolders"@ != "infolder"@) by {
            if "nosubfolders"@ == "infolder"@ {
                assert("nosubfolders"@.len() == "infolder"@.len());
            }
        }
    }
    if name == "content"@ {
        assert("content"@ != "ext"@) by {
            if "content"@ == "ext"@ {
                assert("content"@.len() == "ext"@.len());
            }
        }
        assert("content"@ != "type"@) by {
            if "content"@ == "type"@ {
                assert("content"@.len() == "type"@.len());
            }
        }
        assert("content"@ != "size"@) by {
            if "content"@ == "size"@ {
                assert("content"@.len() == "size"@.len());
            }
        }
        assert("content"@ != "audio"@) by {
            if "content"@ == "audio"@ {
                assert("content"@.len() == "audio"@.len());
            }
        }
        assert("content"@ != "video"@) by {
            if "content"@ == "video"@ {
                assert("content"@.len() == "video"@.len());
            }
        }
        assert("content"@ != "doc"@) by {
            if "content"@ == "doc"@ {
                assert("content"@.len() == "doc"@.len());
            }
        }
        assert("content"@ != "exe"@) by {
            if "content"@ == "exe"@ {
                assert("content"@.len() == "exe"@.len());
            }
        }
        assert("content"@ != "file"@) by {
            if "content"@ == "file"@ {
                assert("content"@.len() == "file"@.len());
            }
        }
        assert("content"@ != "folder"@) by {
            if "content"@ == "folder"@ {
                assert("content"@.len() == "folder"@.len());
            }
        }
        assert("content"@ != "parent"@) by {
            if "content"@ == "parent"@ {
                assert("content"@.len() == "parent"@.len());
            }
        }
        assert("content"@ != "in"@) by {
            if "content"@ == "in"@ {
                assert("content"@.len() == "in"@.len());
            }
        }
        assert("content"@ != "infolder"@) by {
            if "content"@ == "infolder"@ {
                assert("content"@.len() == "infolder"@.len());
            }
        }
        assert("content"@ != "nosubfolders"@) by {
            if "content"@ == "nosubfolders"@ {
                assert("content"@.len() == "nosubfolders"@.len());
            }
        }
    }
}

/// The scope, file, folder and content words name their filter: `file:`
/// and `folder:` give those filters with the trimmed argument (none when
/// it is empty); `parent:`, `in:` / `infolder:` and `nosubfolders:` give
/// those scope filters on the normalized folder (no term when there is no
/// folder); `content:` gives a content filter on the trimmed argument (no
/// term when it is empty).
pub proof fn law_filter_words_name_their_filter(arg: Seq<char>, h: Option<Seq<char>>)
    ensures
        term_spec(SpecTokenKind::Word("file"@ + seq![':'] + arg), h) == Some(SpecTerm::Filter(SpecFilter::File {
            argument: opt_arg(trim(arg)),
        })),
        term_spec(SpecTokenKind::Word("folder"@ + seq![':'] + arg), h) == Some(SpecTerm::Filter(SpecFilter::Folder {
            argument: opt_arg(trim(arg)),
        })),
        term_spec(SpecTokenKind::Word("parent"@ + seq![':'] + arg), h) == match scope_path(trim(arg), h) {
            Some(p) => Some(SpecTerm::Filter(SpecFilter::Parent { path: p })),
            None => None,
        },
        term_spec(SpecTokenKind::Word("in"@ + seq![':'] + arg), h) == match scope_path(trim(arg), h) {
            Some(p) => Some(SpecTerm::Filter(SpecFilter::InFolder { path: p })),
            None => None,
        },
        term_spec(SpecTokenKind::Word("infolder"@ + seq![':'] + arg), h) == match scope_path(trim(arg), h) {
            Some(p) => Some(SpecTerm::Filter(SpecFilter::InFolder { path: p })),
            None => None,
        },
        term_spec(SpecTokenKind::Word("nosubfolders"@ + seq![':'] + arg), h) == match scope_path(trim(arg), h) {
            Some(p) => Some(SpecTerm::Filter(SpecFilter::NoSubfolders { path: p })),
            None => None,
        },
        term_spec(SpecTokenKind::Word("content"@ + seq![':'] + arg), h) == (if trim(arg).len() == 0 {
            None
        } else {
            Some(SpecTerm::Filter(SpecFilter::Content { needle: trim(arg) }))
        }),
{
    reveal_strlit("file");
    assert(lower_seq("file"@) =~= "file"@);
    lemma_named_word("file"@, arg, h);
    lemma_simple_filter_word("file"@ + seq![':'] + arg, "file"@, trim(arg), h);
    reveal_strlit("folder");
    assert(lower_seq("folder"@) =~= "folder"@);
    lemma_named_word("folder"@, arg, h);
    lemma_simple_filter_word("folder"@ + seq![':'] + arg, "folder"@, trim(arg), h);
    reveal_strlit("parent");
    assert(lower_seq("parent"@) =~= "parent"@);
    lemma_named_word("parent"@, arg, h);
    lemma_simple_filter_word("parent"@ + seq![':'] + arg, "parent"@, trim(arg), h);
    reveal_strlit("in");
    assert(lower_seq("in"@) =~= "in"@);
    lemma_named_word("in"@, arg, h);
    lemma_simple_filter_word("in"@ + seq![':'] + arg, "in"@, trim(arg), h);
    reveal_strlit("infolder");
    assert(lower_seq("infolder"@) =~= "infolder"@);
    lemma_named_word("infolder"@, arg, h);
    lemma_simple_filter_word("infolder"@ + seq![':'] + arg, "infolder"@, trim(arg), h);
    reveal_strlit("nosubfolders");
    assert(lower_seq("nosubfolders"@) =~= "nosubfolders"@);
    lemma_named_word("nosubfolders"@, arg, h);
    lemma_simple_filter_word("nosubfolders"@ + seq![':'] + arg, "nosubfolders"@, trim(arg), h);
    reveal_strlit("content");
    assert(lower_seq("content"@) =~= "content"@);
    lemma_named_word("content"@, arg, h);
    lemma_simple_filter_word("content"@ + seq![':'] + arg, "content"@, trim(arg), h);
}

/// The four date filter words name their filter: `dc:` and
/// `datecreated:` give a creation-date filter, `dm:` and `datemodified:` a
/// modification-date filter, each with the date query its (trimmed)
/// argument reads as; an argument that reads as no date query gives no
/// term.
pub proof fn law_date_words_name_their_filter(arg: Seq<char>, h: Option<Seq<char>>)
    ensures
        term_spec(SpecTokenKind::Word("dc"@ + seq![':'] + arg), h) == match date_query_syntax(trim(arg)) {
            Some(q) => Some(SpecTerm::Filter(SpecFilter::DateCreated(q))),
            None => None,
        },
        term_spec(SpecTokenKind::Word("datecreated"@ + seq![':'] + arg), h) == match date_query_syntax(trim(arg)) {
            Some(q) => Some(SpecTerm::Filter(SpecFilter::DateCreated(q))),
            None => None,
        },
        term_spec(SpecTokenKind::Word("dm"@ + seq![':'] + arg), h) == match date_query_syntax(trim(arg)) {
            Some(q) => Some(SpecTerm::Filter(SpecFilter::DateModified(q))),
            None => None,
        },
        term_spec(SpecTokenKind::Word("datemodified"@ + seq![':'] + arg), h) == match date_query_syntax(trim(arg)) {
            Some(q) => Some(SpecTerm::Filter(SpecFilter::DateModified(q))),
            None => None,
        },
{
    reveal_strlit("dc");
    reveal_strlit("datecreated");
    reveal_strlit("dm");
    reveal_strlit("datemodified");
    assert(lower_seq("dc"@) =~= "dc"@);
    assert(lower_seq("datecreated"@) =~= "datecreated"@);
    assert(lower_seq("dm"@) =~= "dm"@);
    assert(lower_seq("datemodified"@) =~= "datemodified"@);
    lemma_named_word("dc"@, arg, h);
    lemma_named_word("datecreated"@, arg, h);
    lemma_named_word("dm"@, arg, h);
    lemma_named_word("datemodified"@, arg, h);
    lemma_date_filter_word("dc"@ + seq![':'] + arg, "dc"@, trim(arg), h);
    lemma_date_filter_word("datecreated"@ + seq![':'] + arg, "datecreated"@, trim(arg), h);
    lemma_date_filter_word("dm"@ + seq![':'] + arg, "dm"@, trim(arg), h);
    lemma_date_filter_word("datemodified"@ + seq![':'] + arg, "datemodified"@, trim(arg), h);
}

/// The term a token reads as: a phrase is text; a word is text unless it is
/// `name:argument` with a known filter name (matched in any ASCII case);
/// none for an invalid filter argument or a token that is no term.
#[verifier::opaque]
pub open spec fn term_spec(kind: SpecTokenKind, home: Option<Seq<char>>) -> Option<SpecTerm> {
    match kind {
        SpecTokenKind::Phrase(v) => Some(SpecTerm::Text(v)),
        SpecTokenKind::Word(raw) => if !raw.contains(':') || first_char_index(raw, ':') == 0 {
            Some(SpecTerm::Text(raw))
        } else {
            let k = first_char_index(raw, ':');
            filter_term_spec(raw, lower_seq(raw.subrange(0, k)), trim(raw.subrange(k + 1, raw.len() as int)), home)
        },
        _ => None,
    }
}

/// A date filter word whose dates the clock or the time zone may refuse.
#[verifier::opaque]
pub open spec fn clock_dependent_word(kind: SpecTokenKind) -> bool {
    match kind {
        SpecTokenKind::Word(raw) => {
            let k = first_char_index(raw, ':');
            &&& raw.contains(':')
            &&& k > 0
            &&& is_date_filter_name(lower_seq(raw.subrange(0, k)))
            &&& date_query_syntax(trim(raw.subrange(k + 1, raw.len() as int))) matches Some(q)
            &&& !always_resolves(q)
        },
        _ => false,
    }
}

/// The message of a filter word that names no value where one is needed:
/// `ext:`, `type:`, `content:` and `tag:` (or `tags:`) with nothing after
/// the colon.
pub open spec fn word_err(kind: SpecTokenKind) -> Option<Seq<char>> {
    match kind {
        SpecTokenKind::Word(raw) => {
            let k = first_char_index(raw, ':');
            if !raw.contains(':') || k <= 0 {
                None
            } else {
                named_word_err(lower_seq(raw.subrange(0, k)), trim(raw.subrange(k + 1, raw.len() as int)))
            }
        },
        _ => None,
    }
}

/// `word_err` of a filter name and its trimmed argument.
pub open spec fn named_word_err(name: Seq<char>, arg: Seq<char>) -> Option<Seq<char>> {
    if arg.len() > 0 {
        None
    } else if name == "ext"@ {
        Some("ext: requires at least one extension"@)
    } else if name == "type"@ {
        Some("type: requires a category"@)
    } else if name == "content"@ {
        Some("content: requires a search value"@)
    } else if name == "tag"@ || name == "tags"@ {
        Some("tag: requires at least one tag name"@)
    } else {
        None
    }
}

/// A date filter word whose dates, seen from some day, give no predicate
/// (`unresolvable`).
pub open spec fn date_word_unresolvable(kind: SpecTokenKind) -> bool {
    match kind {
        SpecTokenKind::Word(raw) => {
            let k = first_char_index(raw, ':');
            date_query_syntax(trim(raw.subrange(k + 1, raw.len() as int))) is Some
                && exists|today: CivilDate| valid_date(today) && unresolvable(
                date_query_syntax(trim(raw.subrange(k + 1, raw.len() as int)))->0, today)
        },
        _ => false,
    }
}

/// Some token is a clock-dependent date filter whose dates, seen from some
/// day, give no predicate.
pub open spec fn has_unresolvable_word(t: Seq<SpecToken>) -> bool {
    exists|k: int| 0 <= k < t.len() && clock_dependent_word(#[trigger] t[k].kind) && date_word_unresolvable(t[k].kind)
}

/// Some token is a clock-dependent date filter.
pub open spec fn has_clock_dependent_word(t: Seq<SpecToken>) -> bool {
    exists|k: int| 0 <= k < t.len() && clock_dependent_word(#[trigger] t[k].kind)
}

/// The first index of `c` in `s` is `k`.
pub proof fn lemma_first_char_index(s: Seq<char>, c: char, k: int)
    requires
        0 <= k < s.len(),
        s[k] == c,
        forall|j: int| 0 <= j < k ==> s[j] != c,
    ensures
        first_char_index(s, c) == k,
        s.contains(c),
{
    assert(0 <= k < s.len() && s[k] == c && forall|j: int| 0 <= j < k ==> s[j] != c);
    let i = first_char_index(s, c);
    if i < k {
        assert(s[i] != c);
    }
    if i > k {
        assert(s[k] != c);
    }
}

/// Normalizes an `ext:` entry.
fn normalize_extension(raw: &Vec<char>) -> (r: Option<Vec<char>>)
    ensures
        match r {
            Some(x) => normalize_ext(raw@) == Some(x@),
            None => normalize_ext(raw@) is None,
        },
{
    let t = trim_chars(raw);
    let mut k: usize = 0;
    assert(t@.subrange(0, t.len() as int) =~= t@);
    while k < t.len() && t[k] == '.'
        invariant
            k <= t.len(),
            strip_dots(t@) == strip_dots(t@.subrange(k as int, t.len() as int)),
        decreases t.len() - k,
    {
        proof {
            assert(t@.subrange(k as int, t.len() as int).drop_first() =~= t@.subrange(k + 1, t.len() as int));
        }
        k = k + 1;
    }
    let rest = sub_chars(&t, k, t.len());
    if rest.len() == 0 {
        None
    } else {
        Some(lower_chars(&rest))
    }
}

/// The normalized entries of an `ext:` list.
fn normalize_extension_list(pieces: &Vec<Vec<char>>) -> (r: Vec<String>)
    ensures
        str_views(r@) == normalized_exts(vec_views(pieces@)),
{
    let mut r: Vec<String> = Vec::new();
    let mut i: usize = 0;
    assert(vec_views(pieces@.subrange(0, 0)) =~= Seq::<Seq<char>>::empty());
    assert(str_views(r@) =~= Seq::<Seq<char>>::empty());
    assert(trims(vec_views(pieces@.subrange(0, 0))) =~= Seq::<Seq<char>>::empty());
    while i < pieces.len()
        invariant
            i <= pieces.len(),
            str_views(r@) == normalized_exts(vec_views(pieces@.subrange(0, i as int))),
        decreases pieces.len() - i,
    {
        let ghost before = vec_views(pieces@.subrange(0, i as int));
        assert(vec_views(pieces@.subrange(0, i + 1)).drop_last() =~= before);
        assert(vec_views(pieces@.subrange(0, i + 1)).last() == pieces@[i as int]@);
        match normalize_extension(&pieces[i]) {
            Some(x) => {
                let ghost old_r = r@;
                r.push(string_of(&x));
                assert(str_views(r@) =~= str_views(old_r).push(x@));
            },
            None => {},
        }
        i = i + 1;
    }
    assert(pieces@.subrange(0, pieces.len() as int) =~= pieces@);
    r
}

/// The non-empty trimmed entries of a `tag:` list.
fn tag_list(pieces: &Vec<Vec<char>>) -> (r: Vec<String>)
    ensures
        str_views(r@) == nonempty(trims(vec_views(pieces@))),
{
    let mut r: Vec<String> = Vec::new();
    let mut i: usize = 0;
    assert(vec_views(pieces@.subrange(0, 0)) =~= Seq::<Seq<char>>::empty());
    assert(str_views(r@) =~= Seq::<Seq<char>>::empty());
    assert(trims(vec_views(pieces@.subrange(0, 0))) =~= Seq::<Seq<char>>::empty());
    while i < pieces.len()
        invariant
            i <= pieces.len(),
            str_views(r@) == nonempty(trims(vec_views(pieces@.subrange(0, i as int)))),
        decreases pieces.len() - i,
    {
        let ghost before = trims(vec_views(pieces@.subrange(0, i as int)));
        assert(trims(vec_views(pieces@.subrange(0, i + 1))).drop_last() =~= before);
        let t = trim_chars(&pieces[i]);
        assert(trims(vec_views(pieces@.subrange(0, i + 1))).last() == t@);
        if t.len() > 0 {
            let ghost old_r = r@;
            r.push(string_of(&t));
            assert(str_views(r@) =~= str_views(old_r).push(t@));
        }
        i = i + 1;
    }
    assert(pieces@.subrange(0, pieces.len() as int) =~= pieces@);
    r
}

/// An argument as an optional string.
fn opt_argument(arg: &Vec<char>) -> (r: Option<String>)
    ensures
        crate::query::expression::opt_view(r) == opt_arg(arg@),
{
    if arg.len() == 0 {
        None
    } else {
        Some(string_of(arg))
    }
}

/// Reads a token as a term.
pub fn parse_query_term(token: &QueryToken, home: Option<&str>) -> (r: Result<QueryTerm>)
    ensures
        match r {
            Ok(t) => term_spec(kind_view(token.kind), opt_str_view(home)) == Some(crate::query::expression::term_view(t)),
            Err(e) => term_spec(kind_view(token.kind), opt_str_view(home)) is None || (clock_dependent_word(kind_view(token.kind))
                && date_word_unresolvable(kind_view(token.kind))),
        },
        r matches Ok(t) ==> term_dates_resolved(t),
        r matches Err(e) ==> e is QueryParse || (e is Path && home is None),
        word_err(kind_view(token.kind)) is Some ==> (r matches Err(FilesystemError::QueryParse(m))
            && m@ == word_err(kind_view(token.kind))->0),
{
    match &token.kind {
        QueryTokenKind::Phrase(value) => {
            proof {
                reveal(term_spec);
            }
            Ok(QueryTerm::Text(value.clone()))
        },
        QueryTokenKind::Word(raw) => {
            proof {
                reveal(term_spec);
            }
            let v = chars_of(raw.as_str());
            let split = match find_char(&v, ':') {
                None => {
                    return Ok(QueryTerm::Text(raw.clone()));
                },
                Some(k) => k,
            };
            proof {
                lemma_first_char_index(v@, ':', split as int);
            }
            if split == 0 {
                return Ok(QueryTerm::Text(raw.clone()));
            }
            let name_raw = sub_chars(&v, 0, split);
            let name = lower_chars(&name_raw);
            let after = sub_chars(&v, split + 1, v.len());
            let arg = trim_chars(&after);
            let argument = string_of(&arg);
            let ghost h = opt_str_view(home);
            proof {
                reveal(term_spec);
                reveal(clock_dependent_word);
            }
            assert(term_spec(kind_view(token.kind), h) == filter_term_spec(raw@, name@, arg@, h));
            assert(word_err(kind_view(token.kind)) == named_word_err(name@, arg@));
            if arg.len() == 0 {
                if chars_eq_str(&name, "ext") {
                    return Err(query_error("ext: requires at least one extension"));
                }
                if chars_eq_str(&name, "type") {
                    return Err(query_error("type: requires a category"));
                }
                if chars_eq_str(&name, "content") {
                    proof {
                        lemma_empty_argument_word(raw@, name@, arg@, h);
                    }
                    return Err(query_error("content: requires a search value"));
                }
                if chars_eq_str(&name, "tag") || chars_eq_str(&name, "tags") {
                    proof {
                        lemma_empty_argument_word(raw@, name@, arg@, h);
                    }
                    return Err(query_error("tag: requires at least one tag name"));
                }
            }
            assert(word_err(kind_view(token.kind)) is None);
            if chars_eq_str(&name, "ext") {
                if arg.len() == 0 {
                    return Err(query_error("ext: requires at least one extension"));
                }
                let pieces = split_chars(&arg, ';');
                let values = normalize_extension_list(&pieces);
                if values.len() == 0 {
                    return Err(query_error("ext: requires non-empty extensions"));
                }
                Ok(QueryTerm::Filter(QueryFilter::Extension(values)))
            } else if chars_eq_str(&name, "type") {
                if arg.len() == 0 {
                    return Err(query_error("type: requires a category"));
                }
                let normalized = lower_chars(&arg);
                let ns = string_of(&normalized);
                match lookup_type_filter_target(ns.as_str()) {
                    Some(t) => Ok(QueryTerm::Filter(QueryFilter::Type(t))),
                    None => Err(FilesystemError::QueryParse(concat_strs("unknown type category: ", argument.as_str()))),
                }
            } else if chars_eq_str(&name, "size") {
                match SizePredicate::parse(argument.as_str()) {
                    Ok(p) => Ok(QueryTerm::Filter(QueryFilter::Size(p))),
                    Err(e) => Err(e),
                }
            } else if chars_eq_str(&name, "audio") || chars_eq_str(&name, "video") || chars_eq_str(&name, "doc")
                || chars_eq_str(&name, "exe") {
                let ns = string_of(&name);
                match lookup_type_filter_target(ns.as_str()) {
                    Some(t) => Ok(QueryTerm::Filter(QueryFilter::TypeMacro { target: t, argument: opt_argument(&arg) })),
                    None => Err(FilesystemError::QueryParse(concat_strs("missing built-in type macro mapping: ", ns.as_str()))),
                }
            } else if chars_eq_str(&name, "file") {
                Ok(QueryTerm::Filter(QueryFilter::File { argument: opt_argument(&arg) }))
            } else if chars_eq_str(&name, "folder") {
                Ok(QueryTerm::Filter(QueryFilter::Folder { argument: opt_argument(&arg) }))
            } else if chars_eq_str(&name, "parent") {
                proof {
                    crate::strings::lemma_trim_idempotent(after@);
                }
                match normalize_scope_filter_path(argument.as_str(), "parent", home) {
                    Ok(p) => Ok(QueryTerm::Filter(QueryFilter::Parent { path: p })),
                    Err(e) => Err(e),
                }
            } else if chars_eq_str(&name, "in") || chars_eq_str(&name, "infolder") {
                proof {
                    crate::strings::lemma_trim_idempotent(after@);
                }
                let ns = string_of(&name);
                match normalize_scope_filter_path(argument.as_str(), ns.as_str(), home) {
                    Ok(p) => Ok(QueryTerm::Filter(QueryFilter::InFolder { path: p })),
                    Err(e) => Err(e),
                }
            } else if chars_eq_str(&name, "nosubfolders") {
                proof {
                    crate::strings::lemma_trim_idempotent(after@);
                }
                match normalize_scope_filter_path(argument.as_str(), "nosubfolders", home) {
                    Ok(p) => Ok(QueryTerm::Filter(QueryFilter::NoSubfolders { path: p })),
                    Err(e) => Err(e),
                }
            } else if chars_eq_str(&name, "content") {
                if arg.len() == 0 {
                    return Err(query_error("content: requires a search value"));
                }
                Ok(QueryTerm::Filter(QueryFilter::Content { needle: argument }))
            } else if chars_eq_str(&name, "tag") || chars_eq_str(&name, "tags") {
                if arg.len() == 0 {
                    return Err(query_error("tag: requires at least one tag name"));
                }
                let pieces = split_chars(&arg, ';');
                let tags = tag_list(&pieces);
                if tags.len() == 0 {
                    return Err(query_error("tag: requires non-empty tag names"));
                }
                Ok(QueryTerm::Filter(QueryFilter::Tag { tags }))
            } else if chars_eq_str(&name, "dm") || chars_eq_str(&name, "datemodified") {
                match DatePredicate::parse(argument.as_str()) {
                    Ok(p) => Ok(QueryTerm::Filter(QueryFilter::DateModified(p))),
                    Err(e) => Err(e),
                }
            } else if chars_eq_str(&name, "dc") || chars_eq_str(&name, "datecreated") {
                match DatePredicate::parse(argument.as_str()) {
                    Ok(p) => Ok(QueryTerm::Filter(QueryFilter::DateCreated(p))),
                    Err(e) => Err(e),
                }
            } else {
                Ok(QueryTerm::Text(raw.clone()))
            }
        },
        _ => {
            proof {
                reveal(term_spec);
            }
            Err(query_error("invalid query token while parsing term"))
        },
    }
}


// ---------------------------------------------------------------------------
// Grammar
// ---------------------------------------------------------------------------

/// The delimiters of a group.
#[derive(Debug, Clone, Copy, PartialEq, Eq, Structural)]
pub enum QueryGroupDelimiter {
    Parenthesis,
    Angle,
}

/// The kind of the token at `i`, if there is one.
pub open spec fn kind_at(t: Seq<SpecToken>, i: int) -> Option<SpecTokenKind> {
    if 0 <= i < t.len() {
        Some(t[i].kind)
    } else {
        None
    }
}

/// The token that closes a group.
pub open spec fn close_kind(d: QueryGroupDelimiter) -> SpecTokenKind {
    match d {
        QueryGroupDelimiter::Parenthesis => SpecTokenKind::RParen,
        QueryGroupDelimiter::Angle => SpecTokenKind::RAngle,
    }
}

/// The token at `i` closes the enclosing group.
pub open spec fn at_group_close(t: Seq<SpecToken>, i: int, c: Option<QueryGroupDelimiter>) -> bool {
    match c {
        None => false,
        Some(d) => kind_at(t, i) == Some(close_kind(d)),
    }
}

/// The token at `i` is the `and` keyword.
pub open spec fn at_and(t: Seq<SpecToken>, i: int) -> bool {
    kind_at(t, i) == Some(SpecTokenKind::And)
}

/// The token at `i` separates alternatives (`|` or `or`).
pub open spec fn at_or_sep(t: Seq<SpecToken>, i: int) -> bool {
    kind_at(t, i) == Some(SpecTokenKind::Pipe) || kind_at(t, i) == Some(SpecTokenKind::Or)
}

/// The token at `i` negates (`!` or `not`).
pub open spec fn at_not(t: Seq<SpecToken>, i: int) -> bool {
    kind_at(t, i) == Some(SpecTokenKind::Bang) || kind_at(t, i) == Some(SpecTokenKind::Not)
}

/// The token at `i` can start an operand.
pub open spec fn starts_operand(t: Seq<SpecToken>, i: int) -> bool {
    match kind_at(t, i) {
        Some(k) => k is Word || k is Phrase || k is LParen || k is LAngle || k is Bang || k is Not,
        None => false,
    }
}

/// An implicit conjunction of parts: nothing, a single part, or `And`.
pub open spec fn and_finish(parts: Seq<SpecExpr>) -> SpecExpr {
    if parts.len() == 1 {
        parts[0]
    } else {
        SpecExpr::And(parts)
    }
}

/// A disjunction of parts: a single part, or `Or`.
pub open spec fn or_finish(parts: Seq<SpecExpr>) -> SpecExpr {
    if parts.len() == 1 {
        parts[0]
    } else {
        SpecExpr::Or(parts)
    }
}

/// The conjunction read from `i` on, after `parts`: `and` keywords are
/// skipped, each operand is a disjunction, and it ends at the end of the
/// tokens, at the group's closing token, or after an operand that is not
/// followed by `and` or another operand. Gives the expression and the index
/// after it; none on a syntax error.
pub open spec fn and_loop(t: Seq<SpecToken>, i: int, c: Option<QueryGroupDelimiter>, h: Option<Seq<char>>, parts: Seq<SpecExpr>) -> Option<(SpecExpr, int)>
    decreases t.len() - i, 5int,
{
    if i < 0 || i > t.len() {
        None
    } else if i == t.len() || at_group_close(t, i, c) {
        Some((and_finish(parts), i))
    } else if at_and(t, i) {
        and_loop(t, i + 1, c, h, parts)
    } else {
        match or_expr(t, i, c, h) {
            None => None,
            Some((e, j)) => if j <= i || j > t.len() {
                None
            } else if at_and(t, j) {
                and_loop(t, j + 1, c, h, parts.push(e))
            } else if starts_operand(t, j) {
                and_loop(t, j, c, h, parts.push(e))
            } else {
                Some((and_finish(parts.push(e)), j))
            },
        }
    }
}

/// A disjunction starting at `i`.
pub open spec fn or_expr(t: Seq<SpecToken>, i: int, c: Option<QueryGroupDelimiter>, h: Option<Seq<char>>) -> Option<(SpecExpr, int)>
    decreases t.len() - i, 4int,
{
    if i < 0 || i >= t.len() {
        None
    } else {
        match not_expr(t, i, h) {
            None => None,
            Some((e, j)) => if j <= i || j > t.len() {
                None
            } else {
                or_loop(t, j, c, h, seq![e])
            },
        }
    }
}

/// The rest of a disjunction from `i` on, after `parts`: each separator is
/// followed by another negation, unless the tokens or the group end there
/// or another separator follows.
pub open spec fn or_loop(t: Seq<SpecToken>, i: int, c: Option<QueryGroupDelimiter>, h: Option<Seq<char>>, parts: Seq<SpecExpr>) -> Option<(SpecExpr, int)>
    decreases t.len() - i, 3int,
{
    if i < 0 || i > t.len() {
        None
    } else if !at_or_sep(t, i) {
        Some((or_finish(parts), i))
    } else if i + 1 == t.len() || at_group_close(t, i + 1, c) {
        Some((or_finish(parts), i + 1))
    } else if at_or_sep(t, i + 1) {
        or_loop(t, i + 1, c, h, parts)
    } else {
        match not_expr(t, i + 1, h) {
            None => None,
            Some((e, j)) => if j <= i + 1 || j > t.len() {
                None
            } else {
                or_loop(t, j, c, h, parts.push(e))
            },
        }
    }
}

/// The index after a run of negation prefixes from `i`, and whether their
/// number is odd (given the parity `negate` so far).
pub open spec fn not_run(t: Seq<SpecToken>, i: int, negate: bool) -> (int, bool)
    decreases t.len() - i,
{
    if 0 <= i < t.len() && at_not(t, i) {
        not_run(t, i + 1, !negate)
    } else {
        (i, negate)
    }
}

/// A negation: prefixes, then a primary expression; an odd number of
/// prefixes wraps it in `Not`.
pub open spec fn not_expr(t: Seq<SpecToken>, i: int, h: Option<Seq<char>>) -> Option<(SpecExpr, int)>
    decreases t.len() - i, 2int,
{
    let (k, negate) = not_run(t, i, false);
    if i < 0 || k < i || k > t.len() {
        None
    } else {
        match primary(t, k, h) {
            None => None,
            Some((e, j)) => Some((if negate { SpecExpr::Not(Box::new(e)) } else { e }, j)),
        }
    }
}

/// A primary expression: a group in `( )` or `< >`, or a term.
pub open spec fn primary(t: Seq<SpecToken>, i: int, h: Option<Seq<char>>) -> Option<(SpecExpr, int)>
    decreases t.len() - i, 1int,
{
    if i < 0 || i >= t.len() {
        None
    } else if t[i].kind == SpecTokenKind::LParen {
        group(t, i + 1, QueryGroupDelimiter::Parenthesis, h)
    } else if t[i].kind == SpecTokenKind::LAngle {
        group(t, i + 1, QueryGroupDelimiter::Angle, h)
    } else if t[i].kind is Word || t[i].kind is Phrase {
        match term_spec(t[i].kind, h) {
            Some(x) => Some((SpecExpr::Term(x), i + 1)),
            None => None,
        }
    } else {
        None
    }
}

/// The inside of a group opened before `i`, and its closing token.
pub open spec fn group(t: Seq<SpecToken>, i: int, d: QueryGroupDelimiter, h: Option<Seq<char>>) -> Option<(SpecExpr, int)>
    decreases t.len() - i, 6int,
{
    if i < 0 || i > t.len() {
        None
    } else {
        match and_loop(t, i, Some(d), h, Seq::empty()) {
            None => None,
            Some((e, j)) => if kind_at(t, j) == Some(close_kind(d)) {
                Some((e, j + 1))
            } else {
                None
            },
        }
    }
}

/// The position reported for token index `j`: that token's, the last
/// token's past the end, 0 without tokens.
pub open spec fn pos_at(t: Seq<SpecToken>, j: int) -> int {
    if 0 <= j < t.len() {
        t[j].position
    } else if t.len() > 0 {
        t[t.len() - 1].position
    } else {
        0
    }
}

/// The message of an unclosed group.
pub open spec fn unclosed_text(d: QueryGroupDelimiter) -> Seq<char> {
    match d {
        QueryGroupDelimiter::Parenthesis => "missing closing ')'"@,
        QueryGroupDelimiter::Angle => "missing closing '>'"@,
    }
}

/// Why a conjunction from `i` fails to parse, where the grammar decides it
/// (`None` where a term fails, whose message is its filter's own).
pub open spec fn and_err(t: Seq<SpecToken>, i: int, c: Option<QueryGroupDelimiter>, h: Option<Seq<char>>, parts: Seq<SpecExpr>) -> Option<Seq<char>>
    decreases t.len() - i, 5int,
{
    if i < 0 || i > t.len() {
        None
    } else if i == t.len() || at_group_close(t, i, c) {
        None
    } else if at_and(t, i) {
        and_err(t, i + 1, c, h, parts)
    } else {
        match or_expr(t, i, c, h) {
            None => or_err(t, i, c, h),
            Some((e, j)) => if j <= i || j > t.len() {
                None
            } else if at_and(t, j) {
                and_err(t, j + 1, c, h, parts.push(e))
            } else if starts_operand(t, j) {
                and_err(t, j, c, h, parts.push(e))
            } else {
                None
            },
        }
    }
}

/// Why a disjunction from `i` fails to parse, where the grammar decides it.
pub open spec fn or_err(t: Seq<SpecToken>, i: int, c: Option<QueryGroupDelimiter>, h: Option<Seq<char>>) -> Option<Seq<char>>
    decreases t.len() - i, 4int,
{
    if i < 0 || i >= t.len() {
        None
    } else {
        match not_expr(t, i, h) {
            None => not_err(t, i, h),
            Some((e, j)) => if j <= i || j > t.len() {
                None
            } else {
                or_loop_err(t, j, c, h, seq![e])
            },
        }
    }
}

/// Why the rest of a disjunction from `i` fails to parse.
pub open spec fn or_loop_err(t: Seq<SpecToken>, i: int, c: Option<QueryGroupDelimiter>, h: Option<Seq<char>>, parts: Seq<SpecExpr>) -> Option<Seq<char>>
    decreases t.len() - i, 3int,
{
    if i < 0 || i > t.len() {
        None
    } else if !at_or_sep(t, i) {
        None
    } else if i + 1 == t.len() || at_group_close(t, i + 1, c) {
        None
    } else if at_or_sep(t, i + 1) {
        or_loop_err(t, i + 1, c, h, parts)
    } else {
        match not_expr(t, i + 1, h) {
            None => not_err(t, i + 1, h),
            Some((e, j)) => if j <= i + 1 || j > t.len() {
                None
            } else {
                or_loop_err(t, j, c, h, parts.push(e))
            },
        }
    }
}

/// Why a negation from `i` fails to parse.
pub open spec fn not_err(t: Seq<SpecToken>, i: int, h: Option<Seq<char>>) -> Option<Seq<char>>
    decreases t.len() - i, 2int,
{
    let (k, negate) = not_run(t, i, false);
    if i < 0 || k < i || k > t.len() {
        None
    } else {
        match primary(t, k, h) {
            None => primary_err(t, k, h),
            Some(_) => None,
        }
    }
}

/// Why a primary expression at `i` fails to parse: the query ends, a
/// closing token or another non-term stands there, or its group fails.
pub open spec fn primary_err(t: Seq<SpecToken>, i: int, h: Option<Seq<char>>) -> Option<Seq<char>>
    decreases t.len() - i, 1int,
{
    if i < 0 {
        None
    } else if i >= t.len() {
        Some("expected query term but reached end of query"@)
    } else if t[i].kind == SpecTokenKind::LParen {
        group_err(t, i + 1, QueryGroupDelimiter::Parenthesis, h)
    } else if t[i].kind == SpecTokenKind::LAngle {
        group_err(t, i + 1, QueryGroupDelimiter::Angle, h)
    } else if t[i].kind is Word || t[i].kind is Phrase {
        word_err(t[i].kind)
    } else if t[i].kind == SpecTokenKind::RParen {
        Some(near_message("unexpected ')'"@, t[i].position as nat))
    } else if t[i].kind == SpecTokenKind::RAngle {
        Some(near_message("unexpected '>'"@, t[i].position as nat))
    } else {
        Some(near_message("expected query term"@, t[i].position as nat))
    }
}

/// Why a group opened before `i` fails to parse: its inside fails, or it
/// is not closed.
pub open spec fn group_err(t: Seq<SpecToken>, i: int, d: QueryGroupDelimiter, h: Option<Seq<char>>) -> Option<Seq<char>>
    decreases t.len() - i, 6int,
{
    if i < 0 || i > t.len() {
        None
    } else {
        match and_loop(t, i, Some(d), h, Seq::empty()) {
            None => and_err(t, i, Some(d), h, Seq::empty()),
            Some((e, j)) => if kind_at(t, j) == Some(close_kind(d)) {
                None
            } else {
                Some(near_message(unclosed_text(d), pos_at(t, j) as nat))
            },
        }
    }
}

/// The expression a token sequence parses to: all tokens must be read and
/// some term must occur; no tokens at all is the empty conjunction.
pub open spec fn parse_tokens(t: Seq<SpecToken>, h: Option<Seq<char>>) -> Option<SpecExpr> {
    if t.len() == 0 {
        Some(SpecExpr::And(Seq::empty()))
    } else {
        match and_loop(t, 0, None, h, Seq::empty()) {
            None => None,
            Some((e, j)) => if j < t.len() || !has_terms(e) {
                None
            } else {
                Some(e)
            },
        }
    }
}

/// The expression a query text parses to, `~` expanded against `home`.
pub open spec fn query_parse(input: Seq<char>, home: Option<Seq<char>>) -> Option<SpecExpr> {
    match tokenize(input) {
        None => None,
        Some(t) => parse_tokens(t, home),
    }
}

/// The query text holds a date filter whose dates the clock or the time
/// zone may refuse.
pub open spec fn query_clock_dependent(input: Seq<char>) -> bool {
    tokenize(input) matches Some(t) && has_unresolvable_word(t)
}

/// The query parser: recursive descent over the tokens of a query.
pub struct QueryParser {
    tokens: Vec<QueryToken>,
}

impl QueryParser {
    /// The model of the tokens.
    pub closed spec fn toks(&self) -> Seq<SpecToken> {
        tokens_view(self.tokens@)
    }

    fn kind_at_is(&self, i: usize, k: &QueryTokenKind) -> (r: bool)
        requires
            !(k is Word) && !(k is Phrase),
        ensures
            r == (kind_at(self.toks(), i as int) == Some(kind_view(*k))),
    {
        if i >= self.tokens.len() {
            return false;
        }
        let r = match (&self.tokens[i].kind, k) {
            (QueryTokenKind::LParen, QueryTokenKind::LParen) => true,
            (QueryTokenKind::RParen, QueryTokenKind::RParen) => true,
            (QueryTokenKind::LAngle, QueryTokenKind::LAngle) => true,
            (QueryTokenKind::RAngle, QueryTokenKind::RAngle) => true,
            (QueryTokenKind::Pipe, QueryTokenKind::Pipe) => true,
            (QueryTokenKind::Bang, QueryTokenKind::Bang) => true,
            (QueryTokenKind::And, QueryTokenKind::And) => true,
            (QueryTokenKind::Or, QueryTokenKind::Or) => true,
            (QueryTokenKind::Not, QueryTokenKind::Not) => true,
            _ => false,
        };
        proof {
            assert(self.toks()[i as int] == token_view(self.tokens@[i as int]));
        }
        r
    }

    fn at_group_close(&self, i: usize, c: Option<QueryGroupDelimiter>) -> (r: bool)
        ensures
            r == at_group_close(self.toks(), i as int, c),
    {
        match c {
            None => false,
            Some(QueryGroupDelimiter::Parenthesis) => self.kind_at_is(i, &QueryTokenKind::RParen),
            Some(QueryGroupDelimiter::Angle) => self.kind_at_is(i, &QueryTokenKind::RAngle),
        }
    }

    fn at_or_sep(&self, i: usize) -> (r: bool)
        ensures
            r == at_or_sep(self.toks(), i as int),
    {
        self.kind_at_is(i, &QueryTokenKind::Pipe) || self.kind_at_is(i, &QueryTokenKind::Or)
    }

    fn at_not(&self, i: usize) -> (r: bool)
        ensures
            r == at_not(self.toks(), i as int),
    {
        self.kind_at_is(i, &QueryTokenKind::Bang) || self.kind_at_is(i, &QueryTokenKind::Not)
    }

    fn starts_operand(&self, i: usize) -> (r: bool)
        ensures
            r == starts_operand(self.toks(), i as int),
    {
        if i >= self.tokens.len() {
            return false;
        }
        proof {
            assert(self.toks()[i as int] == token_view(self.tokens@[i as int]));
        }
        match &self.tokens[i].kind {
            QueryTokenKind::Word(_) => true,
            QueryTokenKind::Phrase(_) => true,
            QueryTokenKind::LParen => true,
            QueryTokenKind::LAngle => true,
            QueryTokenKind::Bang => true,
            QueryTokenKind::Not => true,
            _ => false,
        }
    }

    /// The position of token `i`; of the last token past the end; 0 when
    /// there are no tokens.
    fn position_at(&self, i: usize) -> (r: usize)
        ensures
            r == (if i < self.tokens@.len() {
                self.tokens@[i as int].position
            } else if self.tokens@.len() > 0 {
                self.tokens@[self.tokens@.len() - 1].position
            } else {
                0
            }),
    {
        if i < self.tokens.len() {
            self.tokens[i].position
        } else if self.tokens.len() > 0 {
            self.tokens[self.tokens.len() - 1].position
        } else {
            0
        }
    }

    /// Parses a conjunction starting at `start`.
    fn parse_and_expression(&self, start: usize, closing: Option<QueryGroupDelimiter>, home: Option<&str>) -> (r: Result<(QueryExpression, usize)>)
        requires
            start <= self.tokens@.len(),
        ensures
            match r {
                Ok((e, j)) => and_loop(self.toks(), start as int, closing, opt_str_view(home), Seq::empty()) == Some((e@, j as int))
                    && start <= j <= self.tokens@.len(),
                Err(_) => and_loop(self.toks(), start as int, closing, opt_str_view(home), Seq::empty()) is None
                    || has_unresolvable_word(self.toks()),
            },
            r matches Ok((e, _)) ==> dates_resolved(e),
            r matches Err(e) ==> e is QueryParse || (e is Path && home is None),
            (!has_clock_dependent_word(self.toks()) && and_loop(self.toks(), start as int, closing, opt_str_view(home), Seq::empty()) is None && and_err(self.toks(), start as int, closing, opt_str_view(home), Seq::empty()) is Some) ==> (r matches Err(FilesystemError::QueryParse(m))
                && m@ == and_err(self.toks(), start as int, closing, opt_str_view(home), Seq::empty())->0),
        decreases self.tokens@.len() - start, 5int,
    {
        let ghost t = self.toks();
        let ghost h = opt_str_view(home);
        let mut parts: Vec<QueryExpression> = Vec::new();
        let mut i = start;
        let mut done = false;
        assert(exprs_view(parts@) =~= Seq::<SpecExpr>::empty());
        while !done
            invariant
                start <= i <= self.tokens@.len(),
                t == self.toks(),
                t.len() == self.tokens@.len(),
                h == opt_str_view(home),
                !done ==> and_loop(t, start as int, closing, h, Seq::empty()) == and_loop(t, i as int, closing, h, exprs_view(parts@)),
                !done ==> and_err(t, start as int, closing, h, Seq::empty()) == and_err(t, i as int, closing, h, exprs_view(parts@)),
                done ==> and_loop(t, start as int, closing, h, Seq::empty()) == Some((and_finish(exprs_view(parts@)), i as int)),
                forall|k: int| 0 <= k < parts@.len() ==> #[trigger] dates_resolved(parts@[k]),
            decreases 2 * (self.tokens@.len() - i) + (if done { 0int } else { 1int }),
        {
            if i == self.tokens.len() || self.at_group_close(i, closing) {
                done = true;
            } else if self.kind_at_is(i, &QueryTokenKind::And) {
                i = i + 1;
            } else {
                let (e, j) = match self.parse_or_expression(i, closing, home) {
                    Ok(x) => x,
                    Err(err) => {
                        return Err(err);
                    },
                };
                let ghost old_parts = parts@;
                parts.push(e);
                proof {
                    assert(parts@.drop_last() =~= old_parts);
                    assert(exprs_view(parts@) == exprs_view(old_parts).push(e@));
                }
                if self.kind_at_is(j, &QueryTokenKind::And) {
                    i = j + 1;
                } else if self.starts_operand(j) {
                    i = j;
                } else {
                    i = j;
                    done = true;
                }
            }
        }
        proof {
            lemma_exprs_view(parts@);
            lemma_all_dates_resolved(parts@);
        }
        let e = if parts.len() == 1 {
            parts.remove(0)
        } else {
            QueryExpression::And(parts)
        };
        Ok((e, i))
    }

    /// Parses a disjunction starting at `start`.
    fn parse_or_expression(&self, start: usize, closing: Option<QueryGroupDelimiter>, home: Option<&str>) -> (r: Result<(QueryExpression, usize)>)
        requires
            start < self.tokens@.len(),
        ensures
            match r {
                Ok((e, j)) => or_expr(self.toks(), start as int, closing, opt_str_view(home)) == Some((e@, j as int))
                    && start < j <= self.tokens@.len(),
                Err(_) => or_expr(self.toks(), start as int, closing, opt_str_view(home)) is None
                    || has_unresolvable_word(self.toks()),
            },
            r matches Ok((e, _)) ==> dates_resolved(e),
            r matches Err(e) ==> e is QueryParse || (e is Path && home is None),
            (!has_clock_dependent_word(self.toks()) && or_expr(self.toks(), start as int, closing, opt_str_view(home)) is None && or_err(self.toks(), start as int, closing, opt_str_view(home)) is Some) ==> (r matches Err(FilesystemError::QueryParse(m))
                && m@ == or_err(self.toks(), start as int, closing, opt_str_view(home))->0),
        decreases self.tokens@.len() - start, 4int,
    {
        let ghost t = self.toks();
        let ghost h = opt_str_view(home);
        let (first, j0) = match self.parse_not_expression(start, home) {
            Ok(x) => x,
            Err(err) => {
                return Err(err);
            },
        };
        let mut parts: Vec<QueryExpression> = Vec::new();
        parts.push(first);
        proof {
            assert(parts@.drop_last() =~= Seq::<QueryExpression>::empty());
            assert(exprs_view(parts@.drop_last()) =~= Seq::<SpecExpr>::empty());
            assert(exprs_view(parts@) =~= seq![first@]);
        }
        let mut i = j0;
        let mut done = false;
        while !done
            invariant
                start < i <= self.tokens@.len(),
                t == self.toks(),
                t.len() == self.tokens@.len(),
                h == opt_str_view(home),
                !done ==> or_expr(t, start as int, closing, h) == or_loop(t, i as int, closing, h, exprs_view(parts@)),
                !done ==> or_err(t, start as int, closing, h) == or_loop_err(t, i as int, closing, h, exprs_view(parts@)),
                done ==> or_expr(t, start as int, closing, h) == Some((or_finish(exprs_view(parts@)), i as int)),
                forall|k: int| 0 <= k < parts@.len() ==> #[trigger] dates_resolved(parts@[k]),
            decreases 2 * (self.tokens@.len() - i) + (if done { 0int } else { 1int }),
        {
            let sep = self.at_or_sep(i);
            let n = self.tokens.len();
            assert(sep ==> i < n);
            if !sep {
                done = true;
            } else if i + 1 == self.tokens.len() || self.at_group_close(i + 1, closing) {
                i = i + 1;
                done = true;
            } else if self.at_or_sep(i + 1) {
                i = i + 1;
            } else {
                let (e, j) = match self.parse_not_expression(i + 1, home) {
                    Ok(x) => x,
                    Err(err) => {
                        return Err(err);
                    },
                };
                let ghost old_parts = parts@;
                parts.push(e);
                proof {
                    assert(parts@.drop_last() =~= old_parts);
                    assert(exprs_view(parts@) == exprs_view(old_parts).push(e@));
                }
                i = j;
            }
        }
        proof {
            lemma_exprs_view(parts@);
            lemma_all_dates_resolved(parts@);
        }
        let e = if parts.len() == 1 {
            parts.remove(0)
        } else {
            QueryExpression::Or(parts)
        };
        Ok((e, i))
    }

    /// Parses a negation starting at `start`.
    fn parse_not_expression(&self, start: usize, home: Option<&str>) -> (r: Result<(QueryExpression, usize)>)
        requires
            start < self.tokens@.len(),
        ensures
            match r {
                Ok((e, j)) => not_expr(self.toks(), start as int, opt_str_view(home)) == Some((e@, j as int))
                    && start < j <= self.tokens@.len(),
                Err(_) => not_expr(self.toks(), start as int, opt_str_view(home)) is None
                    || has_unresolvable_word(self.toks()),
            },
            r matches Ok((e, _)) ==> dates_resolved(e),
            r matches Err(e) ==> e is QueryParse || (e is Path && home is None),
            (!has_clock_dependent_word(self.toks()) && not_expr(self.toks(), start as int, opt_str_view(home)) is None && not_err(self.toks(), start as int, opt_str_view(home)) is Some) ==> (r matches Err(FilesystemError::QueryParse(m))
                && m@ == not_err(self.toks(), start as int, opt_str_view(home))->0),
        decreases self.tokens@.len() - start, 2int,
    {
        let ghost t = self.toks();
        let mut k = start;
        let mut negate = false;
        while k < self.tokens.len() && self.at_not(k)
            invariant
                start <= k <= self.tokens@.len(),
                t == self.toks(),
                t.len() == self.tokens@.len(),
                not_run(t, start as int, false) == not_run(t, k as int, negate),
            decreases self.tokens@.len() - k,
        {
            negate = !negate;
            k = k + 1;
        }
        let (e, j) = match self.parse_primary_expression(k, home) {
            Ok(x) => x,
            Err(err) => {
                return Err(err);
            },
        };
        if negate {
            Ok((QueryExpression::Not(Box::new(e)), j))
        } else {
            Ok((e, j))
        }
    }

    /// Parses a group or a term at `i`.
    fn parse_primary_expression(&self, i: usize, home: Option<&str>) -> (r: Result<(QueryExpression, usize)>)
        requires
            i <= self.tokens@.len(),
        ensures
            match r {
                Ok((e, j)) => primary(self.toks(), i as int, opt_str_view(home)) == Some((e@, j as int))
                    && i < j <= self.tokens@.len(),
                Err(_) => primary(self.toks(), i as int, opt_str_view(home)) is None
                    || has_unresolvable_word(self.toks()),
            },
            r matches Ok((e, _)) ==> dates_resolved(e),
            r matches Err(e) ==> e is QueryParse || (e is Path && home is None),
            (!has_clock_dependent_word(self.toks()) && primary(self.toks(), i as int, opt_str_view(home)) is None && primary_err(self.toks(), i as int, opt_str_view(home)) is Some) ==> (r matches Err(FilesystemError::QueryParse(m))
                && m@ == primary_err(self.toks(), i as int, opt_str_view(home))->0),
        decreases self.tokens@.len() - i, 1int,
    {
        if i >= self.tokens.len() {
            return Err(query_error("expected query term but reached end of query"));
        }
        proof {
            assert(self.toks()[i as int] == token_view(self.tokens@[i as int]));
        }
        if self.kind_at_is(i, &QueryTokenKind::LParen) {
            return self.parse_group(i + 1, QueryGroupDelimiter::Parenthesis, home);
        }
        if self.kind_at_is(i, &QueryTokenKind::LAngle) {
            return self.parse_group(i + 1, QueryGroupDelimiter::Angle, home);
        }
        let token = &self.tokens[i];
        match &token.kind {
            QueryTokenKind::RParen => Err(FilesystemError::QueryParse(message_near("unexpected ')'", token.position))),
            QueryTokenKind::RAngle => Err(FilesystemError::QueryParse(message_near("unexpected '>'", token.position))),
            QueryTokenKind::Word(_) | QueryTokenKind::Phrase(_) => {
                match parse_query_term(token, home) {
                    Ok(term) => Ok((QueryExpression::Term(term), i + 1)),
                    Err(err) => {
                        proof {
                            if primary(self.toks(), i as int, opt_str_view(home)) is Some {
                                assert(clock_dependent_word(self.toks()[i as int].kind));
                            }
                        }
                        Err(err)
                    },
                }
            },
            _ => Err(FilesystemError::QueryParse(message_near("expected query term", token.position))),
        }
    }

    /// Parses the inside of a group opened before `i` and its closing token.
    #[verifier::rlimit(40)]
    fn parse_group(&self, i: usize, closing: QueryGroupDelimiter, home: Option<&str>) -> (r: Result<(QueryExpression, usize)>)
        requires
            i <= self.tokens@.len(),
        ensures
            match r {
                Ok((e, j)) => group(self.toks(), i as int, closing, opt_str_view(home)) == Some((e@, j as int))
                    && i < j <= self.tokens@.len(),
                Err(_) => group(self.toks(), i as int, closing, opt_str_view(home)) is None
                    || has_unresolvable_word(self.toks()),
            },
            r matches Ok((e, _)) ==> dates_resolved(e),
            r matches Err(e) ==> e is QueryParse || (e is Path && home is None),
            (!has_clock_dependent_word(self.toks()) && group(self.toks(), i as int, closing, opt_str_view(home)) is None && group_err(self.toks(), i as int, closing, opt_str_view(home)) is Some) ==> (r matches Err(FilesystemError::QueryParse(m))
                && m@ == group_err(self.toks(), i as int, closing, opt_str_view(home))->0),
        decreases self.tokens@.len() - i, 6int,
    {
        let (e, j) = match self.parse_and_expression(i, Some(closing), home) {
            Ok(x) => x,
            Err(err) => {
                return Err(err);
            },
        };
        let closed = match closing {
            QueryGroupDelimiter::Parenthesis => self.kind_at_is(j, &QueryTokenKind::RParen),
            QueryGroupDelimiter::Angle => self.kind_at_is(j, &QueryTokenKind::RAngle),
        };
        let n = self.tokens.len();
        assert(closed ==> j < n);
        if closed {
            return Ok((e, j + 1));
        }
        let text = match closing {
            QueryGroupDelimiter::Parenthesis => "missing closing ')'",
            QueryGroupDelimiter::Angle => "missing closing '>'",
        };
        Err(FilesystemError::QueryParse(message_near(text, self.position_at(j))))
    }

    /// Parses a query; a leading `~` in scope filters expands against
    /// `home`.
    ///
    /// The result is `query_parse`: an `Ok` expression is its value, and an
    /// error comes only where it has none or where a date filter's dates
    /// depend on the clock and the time zone (`query_clock_dependent`).
    pub fn parse(input: &str, home: Option<&str>) -> (r: Result<QueryExpression>)
        requires
            byte_len(input@) <= usize::MAX,
        ensures
            r matches Ok(e) ==> query_parse(input@, opt_str_view(home)) == Some(e@),
            r is Err ==> query_parse(input@, opt_str_view(home)) is None || query_clock_dependent(input@),
            r matches Ok(e) ==> dates_resolved(e),
            r matches Err(e) ==> e is QueryParse || (e is Path && home is None),
            tokenize(input@) is None ==> (r matches Err(FilesystemError::QueryParse(m))
                && tokenize_failure(input@) >= 0
                && m@ == near_message("missing closing quote"@, tokenize_failure(input@) as nat)),
            (tokenize(input@) matches Some(t) && t.len() > 0 && !has_clock_dependent_word(t)
                && and_loop(t, 0, None, opt_str_view(home), Seq::empty()) matches Some((e, j))) ==> {
                let t = tokenize(input@)->0;
                let (e, j) = and_loop(t, 0, None, opt_str_view(home), Seq::empty())->0;
                &&& j < t.len() ==> (r matches Err(FilesystemError::QueryParse(m))
                    && m@ == near_message("unexpected token"@, t[j].position as nat))
                &&& (j >= t.len() && !has_terms(e)) ==> (r matches Err(FilesystemError::QueryParse(m))
                    && m@ == "query must contain at least one term"@)
            },
            (tokenize(input@) matches Some(t) && t.len() > 0 && !has_clock_dependent_word(t)
                && and_loop(t, 0, None, opt_str_view(home), Seq::empty()) is None
                && and_err(t, 0, None, opt_str_view(home), Seq::empty()) is Some) ==> (r matches Err(FilesystemError::QueryParse(m))
                && m@ == and_err(tokenize(input@)->0, 0, None, opt_str_view(home), Seq::empty())->0),
    {
        let tokens = match tokenize_query_input(input) {
            Ok(t) => t,
            Err(e) => {
                return Err(e);
            },
        };
        if tokens.len() == 0 {
            let e = QueryExpression::And(Vec::new());
            proof {
                assert(tokens_view(tokens@) =~= Seq::<SpecToken>::empty());
                assert(exprs_view(Seq::<QueryExpression>::empty()) =~= Seq::<SpecExpr>::empty());
                assert(all_dates_resolved(Seq::<QueryExpression>::empty()));
                assert(e matches QueryExpression::And(v) && v@ == Seq::<QueryExpression>::empty());
            }
            return Ok(e);
        }
        let parser = QueryParser { tokens };
        let (expression, j) = match parser.parse_and_expression(0, None, home) {
            Ok(x) => x,
            Err(err) => {
                return Err(err);
            },
        };
        if j < parser.tokens.len() {
            let m = message_near("unexpected token", parser.tokens[j].position);
            return Err(FilesystemError::QueryParse(m));
        }
        if !query_expression_has_terms(&expression) {
            return Err(query_error("query must contain at least one term"));
        }
        Ok(expression)
    }
}

} // verus!
