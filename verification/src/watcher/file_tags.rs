//! Finder tags: reading tag names out of the stored property list, and the
//! checks and query text used to search by tag.

use vstd::prelude::*;
use crate::strings::{chars_eq, chars_of, concat_strs, lower_chars, lower_seq, str_views, string_of, sub_chars};

verus! {

/// The items of a property list whose top value is an array: each string
/// item's text, `None` for an item of another kind; `None` when the bytes
/// do not hold such a list.
pub uninterp spec fn plist_string_items(raw: Seq<u8>) -> Option<Seq<Option<Seq<char>>>>;

/// `plist::Value::from_reader`: the items of a top-level array, string items
/// as text and other items as `None`.
#[verifier::external_body]
fn read_plist_items(raw: &[u8]) -> (r: Option<Vec<Option<String>>>)
    ensures
        match r {
            Some(v) => plist_string_items(raw@) == Some(v@.map_values(|x: Option<String>| match x {
                Some(s) => Some(s@),
                None => None,
            })),
            None => plist_string_items(raw@) is None,
        },
{
    match plist::Value::from_reader(std::io::Cursor::new(raw)) {
        Ok(plist::Value::Array(items)) => Some(items.into_iter().map(|value| match value {
            plist::Value::String(text) => Some(text),
            _ => None,
        }).collect()),
        _ => None,
    }
}

/// The text before the first newline.
pub open spec fn before_newline(s: Seq<char>) -> Seq<char>
    decreases s.len(),
{
    if s.len() == 0 {
        s
    } else if s[0] == '\n' {
        Seq::empty()
    } else {
        seq![s[0]] + before_newline(s.drop_first())
    }
}

/// A stored tag's name: the text before its color suffix (`\n` and a
/// digit), ASCII-lowercased when matching ignores case.
pub open spec fn tag_name(value: Seq<char>, case_insensitive: bool) -> Seq<char> {
    if case_insensitive {
        lower_seq(before_newline(value))
    } else {
        before_newline(value)
    }
}

/// Strips the color suffix from a tag name and optionally lowercases it.
pub fn strip_tag_suffix(value: &str, case_insensitive: bool) -> (r: String)
    ensures
        r@ == tag_name(value@, case_insensitive),
{
    let v = chars_of(value);
    let mut name: Vec<char> = Vec::new();
    let mut i: usize = 0;
    assert(v@.subrange(0, v.len() as int) =~= v@);
    assert(name@ + before_newline(v@) =~= before_newline(v@));
    while i < v.len() && v[i] != '\n'
        invariant
            i <= v.len(),
            v@ == value@,
            before_newline(v@) == name@ + before_newline(v@.subrange(i as int, v.len() as int)),
        decreases v.len() - i,
    {
        proof {
            let rest = v@.subrange(i as int, v.len() as int);
            assert(rest.drop_first() =~= v@.subrange(i + 1, v.len() as int));
            assert(name@.push(v@[i as int]) + before_newline(rest.drop_first()) =~= name@ + (seq![rest[0]] + before_newline(rest.drop_first())));
        }
        name.push(v[i]);
        i = i + 1;
    }
    proof {
        let rest = v@.subrange(i as int, v.len() as int);
        assert(before_newline(rest) =~= Seq::<char>::empty());
        assert(name@ + Seq::<char>::empty() =~= name@);
        assert(v@.subrange(0, v.len() as int) =~= v@);
    }
    if case_insensitive {
        let l = lower_chars(&name);
        string_of(&l)
    } else {
        string_of(&name)
    }
}

/// The tag names of stored tag data: the names of its string items, in
/// order; none when the data is no array.
pub open spec fn parsed_tags(raw: Seq<u8>, case_insensitive: bool) -> Seq<Seq<char>> {
    match plist_string_items(raw) {
        None => Seq::empty(),
        Some(items) => tag_names_of(items, case_insensitive),
    }
}

/// The names of the string items.
pub open spec fn tag_names_of(items: Seq<Option<Seq<char>>>, case_insensitive: bool) -> Seq<Seq<char>>
    decreases items.len(),
{
    if items.len() == 0 {
        Seq::empty()
    } else {
        match items.last() {
            Some(t) => tag_names_of(items.drop_last(), case_insensitive).push(tag_name(t, case_insensitive)),
            None => tag_names_of(items.drop_last(), case_insensitive),
        }
    }
}

/// Parses stored tag data (a property list array of strings such as
/// `"Important\n0"`), keeping the names.
pub fn parse_tags(raw: &[u8], case_insensitive: bool) -> (r: Vec<String>)
    ensures
        str_views(r@) == parsed_tags(raw@, case_insensitive),
{
    let items = match read_plist_items(raw) {
        Some(items) => items,
        None => {
            assert(str_views(Seq::<String>::empty()) =~= Seq::<Seq<char>>::empty());
            return Vec::new();
        },
    };
    let ghost view = items@.map_values(|x: Option<String>| match x {
        Some(s) => Some(s@),
        None => None,
    });
    let mut r: Vec<String> = Vec::new();
    let mut i: usize = 0;
    assert(str_views(r@) =~= tag_names_of(view.subrange(0, 0), case_insensitive));
    while i < items.len()
        invariant
            i <= items@.len(),
            view == items@.map_values(|x: Option<String>| match x {
                Some(s) => Some(s@),
                None => None,
            }),
            str_views(r@) == tag_names_of(view.subrange(0, i as int), case_insensitive),
        decreases items@.len() - i,
    {
        proof {
            let s = view.subrange(0, i + 1);
            assert(s.drop_last() =~= view.subrange(0, i as int));
        }
        match &items[i] {
            Some(text) => {
                let ghost old_r = r@;
                let name = strip_tag_suffix(text.as_str(), case_insensitive);
                r.push(name);
                assert(str_views(r@) =~= str_views(old_r).push(tag_name(text@, case_insensitive)));
            },
            None => {},
        }
        i = i + 1;
    }
    assert(view.subrange(0, items@.len() as int) =~= view);
    r
}

/// Characters with a meaning in Spotlight queries.
pub open spec fn spotlight_forbidden(c: char) -> bool {
    c == '\'' || c == '\\' || c == '*'
}

/// Returns the first character of a tag that Spotlight queries forbid.
pub fn tag_has_spotlight_forbidden_chars(tag: &str) -> (r: Option<char>)
    ensures
        match r {
            Some(c) => spotlight_forbidden(c) && exists|i: int| 0 <= i < tag@.len() && tag@[i] == c
                && forall|j: int| 0 <= j < i ==> !spotlight_forbidden(tag@[j]),
            None => forall|j: int| 0 <= j < tag@.len() ==> !spotlight_forbidden(tag@[j]),
        },
{
    let v = chars_of(tag);
    let mut i: usize = 0;
    while i < v.len()
        invariant
            i <= v.len(),
            v@ == tag@,
            forall|j: int| 0 <= j < i ==> !spotlight_forbidden(v@[j]),
        decreases v.len() - i,
    {
        let c = v[i];
        if c == '\'' || c == '\\' || c == '*' {
            assert(0 <= i < tag@.len() && tag@[i as int] == c && forall|j: int| 0 <= j < i ==> !spotlight_forbidden(tag@[j]));
            return Some(c);
        }
        i = i + 1;
    }
    None
}

/// Whether an entry with `file_tags` carries one of `tags`: compared as
/// written, or (ignoring case) against the ASCII lowercase of `tags`.
pub open spec fn any_tag_matches(file_tags: Seq<Seq<char>>, tags: Seq<Seq<char>>, case_insensitive: bool) -> bool {
    exists|i: int, j: int| 0 <= i < file_tags.len() && 0 <= j < tags.len()
        && file_tags[i] == (if case_insensitive { lower_seq(tags[j]) } else { tags[j] })
}

/// Decides whether an entry's tags hold one of the wanted tags.
pub fn tags_match_any(file_tags: &Vec<String>, tags: &Vec<String>, case_insensitive: bool) -> (r: bool)
    ensures
        r == any_tag_matches(str_views(file_tags@), str_views(tags@), case_insensitive),
{
    let mut i: usize = 0;
    while i < file_tags.len()
        invariant
            i <= file_tags@.len(),
            forall|a: int, b: int| 0 <= a < i && 0 <= b < tags@.len() ==> file_tags@[a]@
                != (if case_insensitive { lower_seq(tags@[b]@) } else { tags@[b]@ }),
        decreases file_tags@.len() - i,
    {
        let ft = chars_of(file_tags[i].as_str());
        let mut j: usize = 0;
        while j < tags.len()
            invariant
                i < file_tags@.len(),
                j <= tags@.len(),
                ft@ == file_tags@[i as int]@,
                forall|a: int, b: int| 0 <= a < i && 0 <= b < tags@.len() ==> file_tags@[a]@
                    != (if case_insensitive { lower_seq(tags@[b]@) } else { tags@[b]@ }),
                forall|b: int| 0 <= b < j ==> file_tags@[i as int]@
                    != (if case_insensitive { lower_seq(tags@[b]@) } else { tags@[b]@ }),
            decreases tags@.len() - j,
        {
            let t = chars_of(tags[j].as_str());
            let want = if case_insensitive { lower_chars(&t) } else { t };
            if chars_eq(&ft, &want) {
                proof {
                    assert(str_views(file_tags@)[i as int] == file_tags@[i as int]@);
                    assert(str_views(tags@)[j as int] == tags@[j as int]@);
                }
                return true;
            }
            j = j + 1;
        }
        i = i + 1;
    }
    proof {
        assert forall|a: int, b: int| 0 <= a < str_views(file_tags@).len() && 0 <= b < str_views(tags@).len() implies
            str_views(file_tags@)[a] != (if case_insensitive { lower_seq(str_views(tags@)[b]) } else { str_views(tags@)[b] }) by {
            assert(str_views(file_tags@)[a] == file_tags@[a]@);
            assert(str_views(tags@)[b] == tags@[b]@);
        }
    }
    false
}

/// The Spotlight clause that matches items carrying `tag` as a substring of
/// one of their tags (ignoring case when asked).
pub open spec fn tag_clause(tag: Seq<char>, case_insensitive: bool) -> Seq<char> {
    "kMDItemUserTags == '*"@ + tag + "*'"@ + (if case_insensitive { "c"@ } else { ""@ })
}

/// The clauses of the tags joined by ` || `.
pub open spec fn tag_query_text(tags: Seq<Seq<char>>, case_insensitive: bool) -> Seq<char>
    decreases tags.len(),
{
    if tags.len() == 0 {
        Seq::empty()
    } else if tags.len() == 1 {
        tag_clause(tags[0], case_insensitive)
    } else {
        tag_query_text(tags.drop_last(), case_insensitive) + " || "@ + tag_clause(tags.last(), case_insensitive)
    }
}

/// No tag holds a character that Spotlight queries reserve.
pub open spec fn tags_allowed(tags: Seq<String>) -> bool {
    forall|k: int, j: int| 0 <= k < tags.len() && 0 <= j < tags[k]@.len() ==> !spotlight_forbidden(tags[k]@[j])
}

/// The Spotlight query that finds items carrying any of the tags: none
/// when there are no tags; the first reserved character met, reading the
/// tags in order, when a tag holds one; else the tags' clauses joined by
/// ` || `.
pub fn spotlight_tag_query(tags: &Vec<String>, case_insensitive: bool) -> (r: Result<Option<String>, char>)
    ensures
        tags@.len() == 0 ==> r == Ok::<Option<String>, char>(None),
        r matches Ok(None) ==> tags@.len() == 0,
        r matches Ok(Some(q)) ==> tags@.len() > 0 && tags_allowed(tags@)
            && q@ == tag_query_text(str_views(tags@), case_insensitive),
        r matches Err(c) ==> exists|k: int, i: int| 0 <= k < tags@.len() && 0 <= i < tags@[k]@.len()
            && tags@[k]@[i] == c && spotlight_forbidden(c)
            && (forall|a: int, j: int| 0 <= a < k && 0 <= j < tags@[a]@.len() ==> !spotlight_forbidden(tags@[a]@[j]))
            && (forall|j: int| 0 <= j < i ==> !spotlight_forbidden(tags@[k]@[j])),
        r is Err <==> !tags_allowed(tags@),
{
    if tags.len() == 0 {
        return Ok(None);
    }
    let mut k: usize = 0;
    while k < tags.len()
        invariant
            k <= tags@.len(),
            forall|a: int, j: int| 0 <= a < k && 0 <= j < tags@[a]@.len() ==> !spotlight_forbidden(tags@[a]@[j]),
        decreases tags@.len() - k,
    {
        match tag_has_spotlight_forbidden_chars(tags[k].as_str()) {
            Some(c) => {
                return Err(c);
            },
            None => {},
        }
        k = k + 1;
    }
    let modifier = if case_insensitive { "c" } else { "" };
    let ghost views = str_views(tags@);
    let mut query = String::new();
    let mut i: usize = 0;
    while i < tags.len()
        invariant
            i <= tags@.len(),
            views == str_views(tags@),
            modifier@ == (if case_insensitive { "c"@ } else { ""@ }),
            i > 0 ==> query@ == tag_query_text(views.subrange(0, i as int), case_insensitive),
            i == 0 ==> query@ == Seq::<char>::empty(),
        decreases tags@.len() - i,
    {
        let ghost before = query@;
        if i > 0 {
            query.append(" || ");
        }
        query.append("kMDItemUserTags == '*");
        query.append(tags[i].as_str());
        query.append("*'");
        query.append(modifier);
        proof {
            let s = views.subrange(0, i + 1);
            assert(s.drop_last() =~= views.subrange(0, i as int));
            assert(s.last() == tags@[i as int]@);
            if i == 0 {
                assert(query@ =~= tag_clause(s[0], case_insensitive));
            } else {
                assert(query@ =~= before + " || "@ + tag_clause(s.last(), case_insensitive));
            }
        }
        i = i + 1;
    }
    assert(views.subrange(0, tags@.len() as int) =~= views);
    Ok(Some(query))
}

/// A line without the `\r` that ends it, if one does.
pub open spec fn strip_cr(t: Seq<char>) -> Seq<char> {
    if t.len() > 0 && t.last() == '\r' {
        t.drop_last()
    } else {
        t
    }
}

/// Where the first line of `s` ends: the index of its first `\n`, or its
/// length when it has none.
pub open spec fn line_end(s: Seq<char>) -> nat
    decreases s.len(),
{
    if s.len() == 0 || s[0] == '\n' {
        0
    } else {
        1 + line_end(s.drop_first())
    }
}

/// The lines of a text, as `str::lines` splits them: at each `\n`, with a
/// `\r` just before it dropped too, and no empty line after a final `\n`.
#[verifier::opaque]
pub open spec fn text_lines(s: Seq<char>) -> Seq<Seq<char>>
    decreases s.len(),
{
    if s.len() == 0 {
        Seq::empty()
    } else if line_end(s) < s.len() {
        seq![strip_cr(s.subrange(0, line_end(s) as int))] + text_lines(s.subrange(line_end(s) as int + 1, s.len() as int))
    } else {
        seq![s]
    }
}

proof fn lemma_line_end(s: Seq<char>, k: int)
    requires
        0 <= k <= s.len(),
        k < s.len() ==> s[k] == '\n',
        forall|j: int| 0 <= j < k ==> s[j] != '\n',
    ensures
        line_end(s) == k,
    decreases s.len(),
{
    if s.len() > 0 && k > 0 {
        lemma_line_end(s.drop_first(), k - 1);
    }
}

/// The text up to the first `\n` from `start` is the next line.
proof fn lemma_line_at(s: Seq<char>, start: int, i: int)
    requires
        0 <= start <= i < s.len(),
        s[i] == '\n',
        forall|j: int| start <= j < i ==> s[j] != '\n',
    ensures
        text_lines(s.subrange(start, s.len() as int)) == seq![strip_cr(s.subrange(start, i))] + text_lines(
            s.subrange(i + 1, s.len() as int)),
{
    let rest = s.subrange(start, s.len() as int);
    lemma_line_end(rest, i - start);
    assert(rest.subrange(0, i - start) =~= s.subrange(start, i));
    assert(rest.subrange(i - start + 1, rest.len() as int) =~= s.subrange(i + 1, s.len() as int));
    reveal(text_lines);
}

/// A text without `\n` is one line, or none when it is empty.
proof fn lemma_last_line(s: Seq<char>)
    requires
        forall|j: int| 0 <= j < s.len() ==> s[j] != '\n',
    ensures
        text_lines(s) == (if s.len() == 0 { Seq::<Seq<char>>::empty() } else { seq![s] }),
{
    lemma_line_end(s, s.len() as int);
    reveal(text_lines);
}

proof fn lemma_push_line(before: Seq<String>, after: Seq<Seq<char>>, line: Seq<char>, tail: Seq<Seq<char>>)
    requires
        after == str_views(before).push(line),
    ensures
        after + tail == str_views(before) + (seq![line] + tail),
{
    assert(after + tail =~= str_views(before) + (seq![line] + tail));
}

/// The lines of a search tool's output, one path per line.
pub fn output_lines(text: &str) -> (r: Vec<String>)
    ensures
        str_views(r@) == text_lines(text@),
{
    let v = chars_of(text);
    let mut r: Vec<String> = Vec::new();
    let mut start: usize = 0;
    let mut i: usize = 0;
    assert(v@.subrange(0, v@.len() as int) =~= v@);
    while i < v.len()
        invariant
            start <= i <= v@.len(),
            v@ == text@,
            forall|j: int| start <= j < i ==> v@[j] != '\n',
            str_views(r@) + text_lines(v@.subrange(start as int, v@.len() as int)) == text_lines(v@),
        decreases v@.len() - i,
    {
        if v[i] == '\n' {
            let ghost before = r@;
            proof {
                lemma_line_at(v@, start as int, i as int);
            }
            let end = if i > start && v[i - 1] == '\r' { i - 1 } else { i };
            let line = sub_chars(&v, start, end);
            assert(line@ == strip_cr(v@.subrange(start as int, i as int)));
            r.push(string_of(&line));
            proof {
                assert(str_views(r@) =~= str_views(before).push(line@));
                lemma_push_line(before, str_views(r@), line@, text_lines(v@.subrange(i + 1, v@.len() as int)));
            }
            start = i + 1;
        }
        i = i + 1;
    }
    proof {
        lemma_last_line(v@.subrange(start as int, v@.len() as int));
    }
    if start < v.len() {
        let ghost before = r@;
        let line = sub_chars(&v, start, v.len());
        r.push(string_of(&line));
        proof {
            assert(str_views(r@) =~= str_views(before) + seq![line@]);
        }
    } else {
        proof {
            assert(str_views(r@) + Seq::<Seq<char>>::empty() =~= str_views(r@));
        }
    }
    r
}

} // verus!
