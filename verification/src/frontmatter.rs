//! The metadata-block engine: parses a document's leading structured block
//! into watch entries and rewrites it with targeted textual splices that leave
//! every other byte of the document untouched.

use vstd::prelude::*;

use std::collections::BTreeMap;

use serde_yaml::Mapping;

use crate::errors::DriftError;
use crate::text::{
    contains_sub, find_char, find_sub, from_chars, is_match_at, lemma_find_char_properties,
    lemma_find_properties, push_all, spec_find, spec_find_char, spec_lines, spec_skip_spaces,
    spec_trim, sub_vec, to_chars, trim,
};

verus! {

/// One tracked pattern and the hash recorded when it was last verified,
/// absent until first computed.
#[derive(Debug, Clone)]
pub struct WatchEntry {
    pub pattern: String,
    pub hash: Option<String>,
}

impl DeepView for WatchEntry {
    type V = (Seq<char>, Option<Seq<char>>);

    open spec fn deep_view(&self) -> Self::V {
        (self.pattern@, self.hash.deep_view())
    }
}

/// A parsed metadata block: the tracked entries, the raw text between the
/// delimiters (kept verbatim so unrelated keys survive a rewrite), and the
/// position just after the closing delimiter.
#[derive(Debug)]
pub struct Frontmatter {
    pub entries: Vec<WatchEntry>,
    /// The exact text between the delimiters.
    pub raw_yaml: String,
    /// The character position immediately after the closing delimiter.
    pub end_pos: usize,
}

/// The block-opening delimiter.
pub open spec fn spec_open_delim() -> Seq<char> {
    "---"@
}

/// The closing delimiter: three dashes on a fresh line.
pub open spec fn spec_close_delim() -> Seq<char> {
    "\n---"@
}

/// The reserved key that holds the tracked entries.
pub open spec fn spec_yaml_key() -> Seq<char> {
    "driftwatcher"@
}

/// The line marker of the reserved key: the key followed by its colon.
pub open spec fn spec_key() -> Seq<char> {
    "driftwatcher:"@
}

/// What the structured-mapping parser yields for a block body: the ordered
/// entries under `key`, or nothing when the body is not a well-formed mapping
/// of the expected shape.
pub uninterp spec fn yaml_entries(body: Seq<char>, key: Seq<char>) -> Option<
    Seq<(Seq<char>, Option<Seq<char>>)>,
>;

/// Relies on `serde_yaml::from_str` and `serde_yaml::from_value`: parses the
/// block body as a YAML mapping and reads the sequence of single-key mappings
/// under `key`; the outcome depends on the body and key text alone.
#[verifier::external_body]
fn parse_yaml_entries(body: &str, key: &str) -> (r: Result<Vec<WatchEntry>, ()>)
    ensures
        match r {
            Ok(v) => yaml_entries(body@, key@) matches Some(es) && v.deep_view() == es,
            Err(_) => yaml_entries(body@, key@) is None,
        },
{
    let Ok(doc) = serde_yaml::from_str::<Mapping>(body) else { return Err(()) };
    let Some(v) = doc.get(key) else { return Ok(Vec::new()) };
    let parsed = serde_yaml::from_value::<Option<Vec<BTreeMap<String, Option<String>>>>>(v.clone());
    let Ok(list) = parsed else { return Err(()) };
    let mut out = Vec::new();
    for m in list.unwrap_or_default() {
        if let Some((pattern, hash)) = m.into_iter().next() {
            out.push(WatchEntry { pattern, hash });
        }
    }
    Ok(out)
}

/// The position of the closing delimiter in document `c`.
pub open spec fn spec_close_pos(c: Seq<char>) -> Option<int> {
    spec_find(c, spec_close_delim(), 3)
}

/// The block body enclosed by the delimiters when the closing one sits at `p`.
pub open spec fn spec_raw(c: Seq<char>, p: int) -> Seq<char> {
    if p >= 4 {
        c.subrange(4, p)
    } else {
        Seq::empty()
    }
}

/// The entries a block body holds: an empty body holds none, any other body
/// is handed to the structured-mapping parser.
pub open spec fn spec_entries_of(raw: Seq<char>) -> Option<Seq<(Seq<char>, Option<Seq<char>>)>> {
    if raw.len() == 0 {
        Some(Seq::empty())
    } else {
        yaml_entries(raw, spec_yaml_key())
    }
}

/// What a successful parse of document `c` yields.
pub open spec fn spec_parse_ok(c: Seq<char>, fm: Frontmatter) -> bool {
    &&& spec_open_delim().is_prefix_of(c)
    &&& spec_close_pos(c) matches Some(p) && {
        &&& fm.end_pos == p + 4
        &&& fm.raw_yaml@ == spec_raw(c, p)
        &&& spec_entries_of(fm.raw_yaml@) matches Some(es) && fm.entries.deep_view() == es
    }
}

/// Parses the leading metadata block of a document.
///
/// A document that does not open with the delimiter has no block; an opener
/// without a closing delimiter is malformed; a body the structured-mapping
/// parser rejects is a parse error.
pub fn parse(content: &str) -> (r: Result<Option<Frontmatter>, DriftError>)
    ensures
        match r {
            Ok(None) => !spec_open_delim().is_prefix_of(content@),
            Ok(Some(fm)) => spec_parse_ok(content@, fm),
            Err(DriftError::MalformedBlock) => spec_open_delim().is_prefix_of(content@)
                && spec_close_pos(content@) is None,
            Err(DriftError::ParseError) => {
                &&& spec_open_delim().is_prefix_of(content@)
                &&& spec_close_pos(content@) matches Some(p) && spec_entries_of(
                    spec_raw(content@, p),
                ) is None
            },
            Err(_) => false,
        },
{
    let chars = to_chars(content);
    let n = chars.len();
    let open_delim = to_chars("---");
    if !crate::text::starts_with(&chars, &open_delim) {
        return Ok(None);
    }
    let close_delim = to_chars("\n---");
    proof {
        reveal_strlit("\n---");
    }
    let p = match find_sub(&chars, &close_delim, 3) {
        None => {
            return Err(DriftError::MalformedBlock);
        },
        Some(p) => p,
    };
    proof {
        lemma_find_properties(chars@, close_delim@, 3);
        assert(is_match_at(chars@, spec_close_delim(), p as int));
    }
    let raw_chars = if p >= 4 {
        sub_vec(&chars, 4, p)
    } else {
        Vec::new()
    };
    proof {
        assert(raw_chars@ == spec_raw(content@, p as int));
    }
    let raw = from_chars(&raw_chars);
    let end_pos = p + 4;
    let entries: Vec<WatchEntry> = if raw_chars.len() == 0 {
        let e: Vec<WatchEntry> = Vec::new();
        proof {
            assert(e.deep_view() =~~= Seq::<(Seq<char>, Option<Seq<char>>)>::empty());
        }
        e
    } else {
        match parse_yaml_entries(raw.as_str(), "driftwatcher") {
            Ok(v) => v,
            Err(_) => {
                return Err(DriftError::ParseError);
            },
        }
    };
    Ok(Some(Frontmatter { entries, raw_yaml: raw, end_pos }))
}

/// Parses the metadata block of the document stored at `path`.
pub fn parse_file(path: &str) -> (r: Result<Option<Frontmatter>, DriftError>)
    ensures
        r matches Err(e) ==> e == DriftError::IoError || e == DriftError::MalformedBlock || e
            == DriftError::ParseError,
{
    let content = match crate::fsio::read_file_text(path) {
        Err(_) => {
            return Err(DriftError::IoError);
        },
        Ok(c) => c,
    };
    parse(content.as_str())
}

/// Whether a block is tracked: it has at least one entry, or its raw text
/// holds the reserved key, so an initialized-but-empty block still counts.
pub open spec fn spec_has_tracked(fm: Frontmatter) -> bool {
    fm.entries@.len() > 0 || spec_find(fm.raw_yaml@, spec_key(), 0) is Some
}

impl Frontmatter {
    /// Whether the tracked-entries key is already configured in this block.
    pub fn has_driftwatcher(&self) -> (r: bool)
        ensures
            r == spec_has_tracked(*self),
    {
        if self.entries.len() > 0 {
            return true;
        }
        let raw = to_chars(self.raw_yaml.as_str());
        let key = to_chars("driftwatcher:");
        proof {
            reveal_strlit("driftwatcher:");
        }
        contains_sub(&raw, &key)
    }
}

/// The block a document with no metadata receives.
pub open spec fn spec_empty_header() -> Seq<char> {
    "---\ndriftwatcher:\n---\n"@
}

/// Prepends an empty tracked block to a document that has none.
pub fn add_empty_frontmatter(content: &str) -> (r: String)
    ensures
        r@ == spec_empty_header() + content@,
{
    String::from_str("---\ndriftwatcher:\n---\n").concat(content)
}

/// The text spliced in just before the closing delimiter when a foreign block
/// is promoted to a tracked one.
pub open spec fn spec_promoted(c: Seq<char>, p: int) -> Seq<char> {
    c.subrange(0, p) + "\ndriftwatcher:"@ + c.subrange(p, c.len() as int)
}

/// Inserts the reserved key, with no entries, immediately before the closing
/// delimiter of an existing block; every other character is preserved.
pub fn add_driftwatcher_to_existing(content: &str) -> (r: Result<String, DriftError>)
    ensures
        match r {
            Ok(s) => {
                &&& spec_open_delim().is_prefix_of(content@)
                &&& spec_close_pos(content@) matches Some(p) && spec_entries_of(
                    spec_raw(content@, p),
                ) is Some && s@ == spec_promoted(content@, p)
            },
            Err(DriftError::BlockNotFound) => !spec_open_delim().is_prefix_of(content@),
            Err(DriftError::MalformedBlock) => spec_open_delim().is_prefix_of(content@)
                && spec_close_pos(content@) is None,
            Err(DriftError::ParseError) => {
                &&& spec_open_delim().is_prefix_of(content@)
                &&& spec_close_pos(content@) matches Some(p) && spec_entries_of(
                    spec_raw(content@, p),
                ) is None
            },
            Err(_) => false,
        },
{
    let fm = match parse(content) {
        Err(e) => {
            return Err(e);
        },
        Ok(None) => {
            return Err(DriftError::BlockNotFound);
        },
        Ok(Some(fm)) => fm,
    };
    let chars = to_chars(content);
    let n = chars.len();
    proof {
        reveal_strlit("\n---");
        lemma_find_properties(content@, spec_close_delim(), 3);
    }
    let p = fm.end_pos - 4;
    let mut out = sub_vec(&chars, 0, p);
    let insert = to_chars("\ndriftwatcher:");
    push_all(&mut out, &insert);
    let rest = sub_vec(&chars, p, n);
    push_all(&mut out, &rest);
    proof {
        assert(out@ =~= spec_promoted(content@, p as int));
    }
    Ok(from_chars(&out))
}

/// The line recorded for a newly inserted entry.
pub open spec fn spec_entry_line(pattern: Seq<char>, hash: Seq<char>) -> Seq<char> {
    "  - \""@ + pattern + "\": "@ + hash + seq!['\n']
}

/// A document with the entry line spliced in directly after the line that
/// holds the reserved key, which sits at `k`; a key line that ends the
/// document gains a line feed first.
pub open spec fn spec_inserted(c: Seq<char>, k: int, pattern: Seq<char>, hash: Seq<char>) -> Seq<
    char,
> {
    match spec_find_char(c, '\n', k) {
        Some(le) => c.subrange(0, le + 1) + spec_entry_line(pattern, hash) + c.subrange(
            le + 1,
            c.len() as int,
        ),
        None => c + seq!['\n'] + spec_entry_line(pattern, hash),
    }
}

/// The outcome of inserting a watch entry into document `c`: the block is
/// parsed, promoted to a tracked one if need be, and the entry line is
/// spliced in after the reserved key's line.
pub open spec fn spec_add_entry(c: Seq<char>, pattern: Seq<char>, hash: Seq<char>) -> Result<
    Seq<char>,
    DriftError,
> {
    if !spec_open_delim().is_prefix_of(c) {
        Err(DriftError::BlockNotFound)
    } else {
        match spec_close_pos(c) {
            None => Err(DriftError::MalformedBlock),
            Some(p) => match spec_entries_of(spec_raw(c, p)) {
                None => Err(DriftError::ParseError),
                Some(es) => {
                    let already = es.len() > 0 || spec_find(spec_raw(c, p), spec_key(), 0) is Some;
                    if already {
                        spec_insert_at_key(c, pattern, hash)
                    } else {
                        spec_add_after_promotion(spec_promoted(c, p), pattern, hash)
                    }
                },
            },
        }
    }
}

/// Splices the entry line into `c2` after the reserved key's line.
pub open spec fn spec_insert_at_key(c2: Seq<char>, pattern: Seq<char>, hash: Seq<char>) -> Result<
    Seq<char>,
    DriftError,
> {
    match spec_find(c2, spec_key(), 0) {
        None => Err(DriftError::BlockNotFound),
        Some(k) => Ok(spec_inserted(c2, k, pattern, hash)),
    }
}

/// After a promotion the promoted document is parsed afresh before the entry
/// line is spliced in.
pub open spec fn spec_add_after_promotion(
    c2: Seq<char>,
    pattern: Seq<char>,
    hash: Seq<char>,
) -> Result<Seq<char>, DriftError> {
    if !spec_open_delim().is_prefix_of(c2) {
        Err(DriftError::BlockNotFound)
    } else {
        match spec_close_pos(c2) {
            None => Err(DriftError::MalformedBlock),
            Some(p2) => match spec_entries_of(spec_raw(c2, p2)) {
                None => Err(DriftError::ParseError),
                Some(_) => spec_insert_at_key(c2, pattern, hash),
            },
        }
    }
}

/// Splices the entry line for `pattern` and `hash` into the document, right
/// after the reserved key's line, so the newest entry is the first in the
/// sequence. A document whose block is not yet tracked is promoted first.
pub fn add_entry(content: &str, pattern: &str, hash: &str) -> (r: Result<String, DriftError>)
    ensures
        match r {
            Ok(s) => spec_add_entry(content@, pattern@, hash@) matches Ok(v) && s@ == v,
            Err(e) => spec_add_entry(content@, pattern@, hash@) matches Err(e2) && e == e2,
        },
{
    let fm = match parse(content) {
        Err(e) => {
            return Err(e);
        },
        Ok(None) => {
            return Err(DriftError::BlockNotFound);
        },
        Ok(Some(fm)) => fm,
    };
    if fm.has_driftwatcher() {
        let chars = to_chars(content);
        insert_at_key(&chars, pattern, hash)
    } else {
        let promoted = match add_driftwatcher_to_existing(content) {
            Ok(s) => s,
            Err(_) => {
                proof {
                    assert(false);
                }
                return Err(DriftError::BlockNotFound);
            },
        };
        match parse(promoted.as_str()) {
            Err(e) => {
                return Err(e);
            },
            Ok(None) => {
                return Err(DriftError::BlockNotFound);
            },
            Ok(Some(_)) => {},
        }
        let chars = to_chars(promoted.as_str());
        insert_at_key(&chars, pattern, hash)
    }
}

/// Splices the entry line into `chars` after the reserved key's line.
fn insert_at_key(chars: &Vec<char>, pattern: &str, hash: &str) -> (r: Result<String, DriftError>)
    ensures
        match r {
            Ok(s) => spec_insert_at_key(chars@, pattern@, hash@) matches Ok(v) && s@ == v,
            Err(e) => spec_insert_at_key(chars@, pattern@, hash@) matches Err(e2) && e == e2,
        },
{
    let key = to_chars("driftwatcher:");
    proof {
        reveal_strlit("driftwatcher:");
    }
    let k = match find_sub(chars, &key, 0) {
        None => {
            return Err(DriftError::BlockNotFound);
        },
        Some(k) => k,
    };
    let n = chars.len();
    let mut line: Vec<char> = to_chars("  - \"");
    push_all(&mut line, &to_chars(pattern));
    push_all(&mut line, &to_chars("\": "));
    push_all(&mut line, &to_chars(hash));
    line.push('\n');
    proof {
        assert(line@ =~= spec_entry_line(pattern@, hash@));
    }
    let mut out: Vec<char>;
    match find_char(chars, '\n', k) {
        Some(le) => {
            proof {
                lemma_find_char_properties(chars@, '\n', k as int);
            }
            out = sub_vec(chars, 0, le + 1);
            push_all(&mut out, &line);
            let rest = sub_vec(chars, le + 1, n);
            push_all(&mut out, &rest);
            proof {
                assert(out@ =~= spec_inserted(chars@, k as int, pattern@, hash@));
            }
        },
        None => {
            out = sub_vec(chars, 0, n);
            out.push('\n');
            push_all(&mut out, &line);
            proof {
                assert(chars@.subrange(0, n as int) =~= chars@);
                assert(out@ =~= spec_inserted(chars@, k as int, pattern@, hash@));
            }
        },
    }
    Ok(from_chars(&out))
}

impl Frontmatter {
    /// Whether some entry already tracks `pattern`.
    pub fn has_pattern(&self, pattern: &str) -> (r: bool)
        ensures
            r == exists|i: int|
                0 <= i < self.entries@.len() && self.entries@[i].pattern@ == pattern@,
    {
        let pat = to_chars(pattern);
        let n = self.entries.len();
        let mut i: usize = 0;
        while i < n
            invariant
                n == self.entries@.len(),
                i <= n,
                pat@ == pattern@,
                forall|j: int| 0 <= j < i ==> self.entries@[j].pattern@ != pattern@,
            decreases n - i,
        {
            let e = to_chars(self.entries[i].pattern.as_str());
            if crate::text::eq_chars(&e, &pat) {
                return true;
            }
            i += 1;
        }
        false
    }
}

/// Whether a document line is the sequence item for `pat`, under any of the
/// three supported key-quoting conventions.
pub open spec fn spec_line_matches(line: Seq<char>, pat: Seq<char>) -> bool {
    let t = spec_trim(line);
    t.len() >= 2 && t[0] == '-' && t[1] == ' ' && {
        let rest = t.subrange(2, t.len() as int);
        ||| (seq!['"'] + pat + seq!['"', ':']).is_prefix_of(rest)
        ||| (seq!['\''] + pat + seq!['\'', ':']).is_prefix_of(rest)
        ||| (pat + seq![':']).is_prefix_of(rest)
    }
}

/// The rewritten line for a matched entry: the original indentation, then the
/// entry in canonical double-quoted form with the new hash.
pub open spec fn spec_replacement(line: Seq<char>, pat: Seq<char>, hash: Seq<char>) -> Seq<char> {
    line.subrange(0, spec_skip_spaces(line, 0)) + seq!['-', ' ', '"'] + pat + seq!['"', ':', ' ']
        + hash
}

/// The index of the first line at or after `from` that matches `pat`.
pub open spec fn spec_first_match(ls: Seq<Seq<char>>, pat: Seq<char>, from: int) -> Option<int>
    decreases ls.len() - from,
{
    if from < 0 || from >= ls.len() {
        None
    } else if spec_line_matches(ls[from], pat) {
        Some(from)
    } else {
        spec_first_match(ls, pat, from + 1)
    }
}

/// Whether `line` is the sequence item for `pat`.
pub fn line_matches(line: &Vec<char>, pat: &Vec<char>) -> (r: bool)
    ensures
        r == spec_line_matches(line@, pat@),
{
    let t = trim(line);
    if t.len() < 2 {
        return false;
    }
    if t[0] != '-' || t[1] != ' ' {
        return false;
    }
    let rest = sub_vec(&t, 2, t.len());
    let mut c1: Vec<char> = Vec::new();
    c1.push('"');
    push_all(&mut c1, pat);
    c1.push('"');
    c1.push(':');
    proof {
        assert(c1@ =~= seq!['"'] + pat@ + seq!['"', ':']);
    }
    if crate::text::starts_with(&rest, &c1) {
        return true;
    }
    let mut c2: Vec<char> = Vec::new();
    c2.push('\'');
    push_all(&mut c2, pat);
    c2.push('\'');
    c2.push(':');
    proof {
        assert(c2@ =~= seq!['\''] + pat@ + seq!['\'', ':']);
    }
    if crate::text::starts_with(&rest, &c2) {
        return true;
    }
    let mut c3: Vec<char> = Vec::new();
    push_all(&mut c3, pat);
    c3.push(':');
    proof {
        assert(c3@ =~= pat@ + seq![':']);
    }
    crate::text::starts_with(&rest, &c3)
}

/// Builds the rewritten line for a matched entry.
fn replacement_line(line: &Vec<char>, pat: &Vec<char>, hash: &Vec<char>) -> (r: Vec<char>)
    ensures
        r@ == spec_replacement(line@, pat@, hash@),
{
    let ind = crate::text::skip_spaces(line);
    let mut out = sub_vec(line, 0, ind);
    out.push('-');
    out.push(' ');
    out.push('"');
    push_all(&mut out, pat);
    out.push('"');
    out.push(':');
    out.push(' ');
    push_all(&mut out, hash);
    proof {
        assert(out@ =~= spec_replacement(line@, pat@, hash@));
    }
    out
}

/// Rewrites the hash of the first line that matches `pattern`, preserving the
/// line's indentation; every other line is kept as it is, and the result is
/// the lines joined with line feeds plus one trailing line feed.
pub fn update_entry(content: &str, pattern: &str, new_hash: &str) -> (r: Result<String, DriftError>)
    ensures
        match r {
            Ok(s) => spec_first_match(spec_lines(content@), pattern@, 0) matches Some(i) && s@
                == crate::text::spec_join(
                spec_lines(content@).update(
                    i,
                    spec_replacement(spec_lines(content@)[i], pattern@, new_hash@),
                ),
            ) + seq!['\n'],
            Err(DriftError::EntryNotFound) => spec_first_match(
                spec_lines(content@),
                pattern@,
                0,
            ) is None,
            Err(_) => false,
        },
{
    let chars = to_chars(content);
    let mut lines = crate::text::split_lines(&chars);
    let pat = to_chars(pattern);
    let hash = to_chars(new_hash);
    let n = lines.len();
    let ghost lsv = lines.deep_view();
    let mut i: usize = 0;
    while i < n
        invariant
            n == lines@.len(),
            i <= n,
            lsv == lines.deep_view(),
            chars@ == content@,
            lsv == spec_lines(chars@),
            pat@ == pattern@,
            hash@ == new_hash@,
            spec_first_match(lsv, pat@, 0) == spec_first_match(lsv, pat@, i as int),
        decreases n - i,
    {
        proof {
            assert(lsv[i as int] == lines@[i as int].deep_view());
            assert(lines@[i as int].deep_view() =~= lines@[i as int]@);
        }
        if line_matches(&lines[i], &pat) {
            let repl = replacement_line(&lines[i], &pat, &hash);
            let ghost old_lines = lines@;
            lines.remove(i);
            lines.insert(i, repl);
            proof {
                assert(lines@ =~= old_lines.update(i as int, repl));
                assert(lines.deep_view() =~~= lsv.update(
                    i as int,
                    spec_replacement(lsv[i as int], pat@, hash@),
                ));
            }
            let out = crate::text::join_lines(&lines);
            return Ok(from_chars(&out));
        }
        i += 1;
    }
    Err(DriftError::EntryNotFound)
}

/// A found line index is in range, matches, and is the first that does.
pub proof fn lemma_first_match_properties(ls: Seq<Seq<char>>, pat: Seq<char>, from: int)
    requires
        from >= 0,
    ensures
        match spec_first_match(ls, pat, from) {
            Some(i) => from <= i < ls.len() && spec_line_matches(ls[i], pat) && forall|j: int|
                from <= j < i ==> !spec_line_matches(ls[j], pat),
            None => forall|j: int| from <= j < ls.len() ==> !spec_line_matches(ls[j], pat),
        },
    decreases ls.len() - from,
{
    if from >= ls.len() {
    } else if spec_line_matches(ls[from], pat) {
    } else {
        lemma_first_match_properties(ls, pat, from + 1);
    }
}

/// A hash rewrite is minimally invasive: it touches the matched line alone,
/// and in a line-normal document a rewrite whose replacement equals the
/// matched line reproduces the document byte for byte.
pub proof fn lemma_update_minimal(c: Seq<char>, pat: Seq<char>, h: Seq<char>)
    requires
        spec_first_match(spec_lines(c), pat, 0) is Some,
    ensures
        ({
            let ls = spec_lines(c);
            let i = spec_first_match(ls, pat, 0)->Some_0;
            let ls2 = ls.update(i, spec_replacement(ls[i], pat, h));
            &&& 0 <= i < ls.len()
            &&& ls2.len() == ls.len()
            &&& forall|j: int| 0 <= j < ls.len() && j != i ==> ls2[j] == ls[j]
            &&& (crate::text::spec_line_normal(c) && spec_replacement(ls[i], pat, h) == ls[i])
                ==> crate::text::spec_join(ls2) + seq!['\n'] == c
        }),
{
    let ls = spec_lines(c);
    let i = spec_first_match(ls, pat, 0)->Some_0;
    lemma_first_match_properties(ls, pat, 0);
    let ls2 = ls.update(i, spec_replacement(ls[i], pat, h));
    if crate::text::spec_line_normal(c) && spec_replacement(ls[i], pat, h) == ls[i] {
        assert(ls2 =~= ls);
        crate::text::lemma_split_join_inverse(c);
    }
}

/// What initializing a document did.
#[derive(Clone, Copy, Debug, PartialEq, Eq, Structural)]
pub enum InitAction {
    /// The block already holds the reserved key; the document is unchanged.
    AlreadyTracked,
    /// A foreign block was promoted to a tracked one.
    PromotedExisting,
    /// The document had no block; an empty tracked block was prepended.
    CreatedBlock,
}

/// Decides how a document is initialized for tracking and produces the new
/// text: an already tracked document is returned unchanged, a foreign block
/// is promoted, and a document with no block gains an empty tracked one.
pub fn init_document(content: &str) -> (r: Result<(String, InitAction), DriftError>)
    ensures
        match r {
            Ok((s, action)) => match action {
                InitAction::AlreadyTracked => {
                    &&& spec_open_delim().is_prefix_of(content@)
                    &&& spec_close_pos(content@) matches Some(p) && spec_entries_of(
                        spec_raw(content@, p),
                    ) matches Some(es) && (es.len() > 0 || spec_find(
                        spec_raw(content@, p),
                        spec_key(),
                        0,
                    ) is Some)
                    &&& s@ == content@
                },
                InitAction::PromotedExisting => {
                    &&& spec_open_delim().is_prefix_of(content@)
                    &&& spec_close_pos(content@) matches Some(p) && spec_entries_of(
                        spec_raw(content@, p),
                    ) matches Some(es) && !(es.len() > 0 || spec_find(
                        spec_raw(content@, p),
                        spec_key(),
                        0,
                    ) is Some) && s@ == spec_promoted(content@, p)
                },
                InitAction::CreatedBlock => {
                    &&& !spec_open_delim().is_prefix_of(content@)
                    &&& s@ == spec_empty_header() + content@
                },
            },
            Err(DriftError::MalformedBlock) => spec_open_delim().is_prefix_of(content@)
                && spec_close_pos(content@) is None,
            Err(DriftError::ParseError) => {
                &&& spec_open_delim().is_prefix_of(content@)
                &&& spec_close_pos(content@) matches Some(p) && spec_entries_of(
                    spec_raw(content@, p),
                ) is None
            },
            Err(_) => false,
        },
{
    match parse(content) {
        Err(e) => Err(e),
        Ok(None) => Ok((add_empty_frontmatter(content), InitAction::CreatedBlock)),
        Ok(Some(fm)) => {
            if fm.has_driftwatcher() {
                Ok((String::from_str(content), InitAction::AlreadyTracked))
            } else {
                match add_driftwatcher_to_existing(content) {
                    Ok(s) => Ok((s, InitAction::PromotedExisting)),
                    Err(e) => {
                        proof {
                            assert(false);
                        }
                        Err(e)
                    },
                }
            }
        },
    }
}

} // verus!
