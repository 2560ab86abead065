//! Character-level text utilities.
//!
//! Document surgery is performed on `Vec<char>` buffers whose view is a
//! `Seq<char>`, so every splice is stated exactly. Two small trusted
//! conversions move between `String` and `Vec<char>`.

use vstd::prelude::*;

verus! {

/// Relies on `str::chars` collected into a `Vec`: the characters of the
/// string, in order.
#[verifier::external_body]
pub fn to_chars(s: &str) -> (r: Vec<char>)
    ensures
        r@ == s@,
{
    s.chars().collect()
}

/// Relies on `String: FromIterator<char>`: the string holding exactly the
/// given characters, in order.
#[verifier::external_body]
pub fn from_chars(v: &Vec<char>) -> (r: String)
    ensures
        r@ == v@,
{
    v.iter().collect()
}

/// Whether `pat` occurs in `s` starting at position `i`.
pub open spec fn is_match_at(s: Seq<char>, pat: Seq<char>, i: int) -> bool {
    0 <= i && i + pat.len() <= s.len() && s.subrange(i, i + pat.len() as int) == pat
}

/// The position of the first occurrence of `pat` in `s` at or after `from`.
/// An empty pattern is never found.
pub open spec fn spec_find(s: Seq<char>, pat: Seq<char>, from: int) -> Option<int>
    decreases s.len() - from,
{
    if from < 0 || pat.len() == 0 || from + pat.len() > s.len() {
        None
    } else if s.subrange(from, from + pat.len() as int) == pat {
        Some(from)
    } else {
        spec_find(s, pat, from + 1)
    }
}

/// A found position is a match, and no earlier position at or after `from` is.
pub proof fn lemma_find_properties(s: Seq<char>, pat: Seq<char>, from: int)
    requires
        from >= 0,
        pat.len() >= 1,
    ensures
        match spec_find(s, pat, from) {
            Some(i) => is_match_at(s, pat, i) && from <= i && forall|j: int|
                from <= j < i ==> !is_match_at(s, pat, j),
            None => forall|j: int| from <= j ==> !is_match_at(s, pat, j),
        },
    decreases s.len() - from,
{
    if from + pat.len() > s.len() {
        assert forall|j: int| from <= j implies !is_match_at(s, pat, j) by {}
    } else if s.subrange(from, from + pat.len() as int) == pat {
    } else {
        lemma_find_properties(s, pat, from + 1);
    }
}

/// Compares `s[i .. i + pat.len()]` with `pat`.
fn match_at(s: &Vec<char>, pat: &Vec<char>, i: usize) -> (r: bool)
    requires
        i + pat@.len() <= s@.len(),
    ensures
        r == is_match_at(s@, pat@, i as int),
{
    let n = s.len();
    let m = pat.len();
    let mut j: usize = 0;
    while j < m
        invariant
            n == s@.len(),
            m == pat@.len(),
            i + m <= n,
            j <= m,
            forall|k: int| 0 <= k < j ==> s@[i + k] == pat@[k],
        decreases m - j,
    {
        if s[i + j] != pat[j] {
            assert(s@.subrange(i as int, i + pat@.len() as int)[j as int] != pat@[j as int]);
            return false;
        }
        j += 1;
    }
    assert(s@.subrange(i as int, i + pat@.len() as int) =~= pat@);
    true
}

/// Finds the first occurrence of `pat` in `s` at or after `from`.
pub fn find_sub(s: &Vec<char>, pat: &Vec<char>, from: usize) -> (r: Option<usize>)
    requires
        pat@.len() >= 1,
    ensures
        match r {
            Some(i) => Some(i as int) == spec_find(s@, pat@, from as int),
            None => spec_find(s@, pat@, from as int) is None,
        },
{
    if pat.len() > s.len() {
        return None;
    }
    let n = s.len();
    let end = n - pat.len();
    let mut i: usize = from;
    if i > end {
        return None;
    }
    while i <= end
        invariant
            from <= i,
            n == s@.len(),
            1 <= pat@.len() <= s@.len(),
            end == s@.len() - pat@.len(),
            i <= end + 1,
            spec_find(s@, pat@, from as int) == spec_find(s@, pat@, i as int),
        decreases end + 1 - i,
    {
        if match_at(s, pat, i) {
            return Some(i);
        }
        i += 1;
    }
    None
}

/// Whether `pat` is a prefix of `s`.
pub fn starts_with(s: &Vec<char>, pat: &Vec<char>) -> (r: bool)
    ensures
        r == pat@.is_prefix_of(s@),
{
    if pat.len() > s.len() {
        return false;
    }
    let r = match_at(s, pat, 0);
    assert(is_match_at(s@, pat@, 0) == pat@.is_prefix_of(s@));
    r
}

/// Whether `pat` occurs anywhere in `s`.
pub fn contains_sub(s: &Vec<char>, pat: &Vec<char>) -> (r: bool)
    requires
        pat@.len() >= 1,
    ensures
        r == (spec_find(s@, pat@, 0) is Some),
{
    find_sub(s, pat, 0).is_some()
}

/// Copies `v[a .. b]` into a fresh buffer.
pub fn sub_vec(v: &Vec<char>, a: usize, b: usize) -> (r: Vec<char>)
    requires
        a <= b <= v@.len(),
    ensures
        r@ == v@.subrange(a as int, b as int),
{
    let mut r: Vec<char> = Vec::new();
    let mut i: usize = a;
    while i < b
        invariant
            a <= i <= b <= v@.len(),
            r@ == v@.subrange(a as int, i as int),
        decreases b - i,
    {
        r.push(v[i]);
        assert(r@ =~= v@.subrange(a as int, i + 1));
        i += 1;
    }
    r
}

/// The suffix of `s` from position `from`, or nothing of it when `from` is
/// past the end.
pub open spec fn spec_after(s: Seq<char>, from: int) -> Seq<char> {
    if 0 <= from <= s.len() {
        s.subrange(from, s.len() as int)
    } else {
        Seq::empty()
    }
}

/// Whether two buffers hold the same characters.
pub fn eq_chars(a: &Vec<char>, b: &Vec<char>) -> (r: bool)
    ensures
        r == (a@ == b@),
{
    if a.len() != b.len() {
        assert(a@ != b@);
        return false;
    }
    let n = a.len();
    let mut i: usize = 0;
    while i < n
        invariant
            n == a@.len() == b@.len(),
            i <= n,
            forall|k: int| 0 <= k < i ==> a@[k] == b@[k],
        decreases n - i,
    {
        if a[i] != b[i] {
            return false;
        }
        i += 1;
    }
    assert(a@ =~= b@);
    true
}

/// The position of the first occurrence of `ch` in `s` at or after `from`.
pub open spec fn spec_find_char(s: Seq<char>, ch: char, from: int) -> Option<int>
    decreases s.len() - from,
{
    if from < 0 || from >= s.len() {
        None
    } else if s[from] == ch {
        Some(from)
    } else {
        spec_find_char(s, ch, from + 1)
    }
}

/// A found character position is in range and holds the character.
pub proof fn lemma_find_char_properties(s: Seq<char>, ch: char, from: int)
    requires
        from >= 0,
    ensures
        match spec_find_char(s, ch, from) {
            Some(i) => from <= i < s.len() && s[i] == ch,
            None => forall|j: int| from <= j < s.len() ==> s[j] != ch,
        },
    decreases s.len() - from,
{
    if from >= s.len() {
    } else if s[from] == ch {
    } else {
        lemma_find_char_properties(s, ch, from + 1);
    }
}

/// Finds the first occurrence of `ch` in `s` at or after `from`.
pub fn find_char(s: &Vec<char>, ch: char, from: usize) -> (r: Option<usize>)
    ensures
        match r {
            Some(i) => Some(i as int) == spec_find_char(s@, ch, from as int),
            None => spec_find_char(s@, ch, from as int) is None,
        },
{
    let n = s.len();
    let mut i: usize = from;
    while i < n
        invariant
            n == s@.len(),
            from <= i,
            spec_find_char(s@, ch, from as int) == spec_find_char(s@, ch, i as int),
        decreases n - i,
    {
        if s[i] == ch {
            return Some(i);
        }
        i += 1;
    }
    None
}

/// The position of the last occurrence of `ch` strictly before `upto`.
pub open spec fn spec_rfind_char(s: Seq<char>, ch: char, upto: int) -> Option<int>
    decreases upto,
{
    if upto <= 0 || upto > s.len() {
        None
    } else if s[upto - 1] == ch {
        Some(upto - 1)
    } else {
        spec_rfind_char(s, ch, upto - 1)
    }
}

/// A found position is in range and holds the character.
pub proof fn lemma_rfind_char_properties(s: Seq<char>, ch: char, upto: int)
    ensures
        match spec_rfind_char(s, ch, upto) {
            Some(i) => 0 <= i < upto <= s.len() && s[i] == ch,
            None => true,
        },
    decreases upto,
{
    if upto <= 0 || upto > s.len() {
    } else if s[upto - 1] == ch {
    } else {
        lemma_rfind_char_properties(s, ch, upto - 1);
    }
}

/// Finds the last occurrence of `ch` in `s`.
pub fn rfind_char(s: &Vec<char>, ch: char) -> (r: Option<usize>)
    ensures
        match r {
            Some(i) => Some(i as int) == spec_rfind_char(s@, ch, s@.len() as int),
            None => spec_rfind_char(s@, ch, s@.len() as int) is None,
        },
{
    let n = s.len();
    let mut i: usize = n;
    while i > 0
        invariant
            n == s@.len(),
            i <= n,
            spec_rfind_char(s@, ch, n as int) == spec_rfind_char(s@, ch, i as int),
        decreases i,
    {
        if s[i - 1] == ch {
            return Some(i - 1);
        }
        i -= 1;
    }
    None
}

/// The characters `str::trim` removes: the documented White_Space set.
pub open spec fn spec_is_space(c: char) -> bool {
    c == ' ' || c == '\t' || c == '\n' || c == '\r' || c == '\u{0b}' || c == '\u{0c}' || c
        == '\u{85}' || c == '\u{a0}' || c == '\u{1680}' || ('\u{2000}' <= c && c <= '\u{200a}') || c
        == '\u{2028}' || c == '\u{2029}' || c == '\u{202f}' || c == '\u{205f}' || c == '\u{3000}'
}

/// Whether `c` is white space.
pub fn is_space(c: char) -> (r: bool)
    ensures
        r == spec_is_space(c),
{
    c == ' ' || c == '\t' || c == '\n' || c == '\r' || c == '\u{0b}' || c == '\u{0c}' || c
        == '\u{85}' || c == '\u{a0}' || c == '\u{1680}' || ('\u{2000}' <= c && c <= '\u{200a}') || c
        == '\u{2028}' || c == '\u{2029}' || c == '\u{202f}' || c == '\u{205f}' || c == '\u{3000}'
}

/// The first position at or after `from` holding a non-space character, or the
/// length of `s` when only white space follows.
pub open spec fn spec_skip_spaces(s: Seq<char>, from: int) -> int
    decreases s.len() - from,
{
    if from < 0 || from >= s.len() {
        s.len() as int
    } else if !spec_is_space(s[from]) {
        from
    } else {
        spec_skip_spaces(s, from + 1)
    }
}

/// One past the last non-space character strictly before `upto`, or 0 when
/// only white space precedes `upto`.
pub open spec fn spec_rskip_spaces(s: Seq<char>, upto: int) -> int
    decreases upto,
{
    if upto <= 0 || upto > s.len() {
        0
    } else if !spec_is_space(s[upto - 1]) {
        upto
    } else {
        spec_rskip_spaces(s, upto - 1)
    }
}

/// `s` with leading and trailing white space removed.
pub open spec fn spec_trim(s: Seq<char>) -> Seq<char> {
    let a = spec_skip_spaces(s, 0);
    let b = spec_rskip_spaces(s, s.len() as int);
    if a <= b {
        s.subrange(a, b)
    } else {
        Seq::empty()
    }
}

/// The number of leading white-space characters of `s`.
pub fn skip_spaces(s: &Vec<char>) -> (r: usize)
    ensures
        r as int == spec_skip_spaces(s@, 0),
        r <= s@.len(),
    decreases s@.len(),
{
    let n = s.len();
    let mut i: usize = 0;
    while i < n
        invariant
            n == s@.len(),
            0 <= i <= n,
            spec_skip_spaces(s@, 0) == spec_skip_spaces(s@, i as int),
        decreases n - i,
    {
        if !is_space(s[i]) {
            return i;
        }
        i += 1;
    }
    n
}

/// One past the last non-space character of `s`.
pub fn rskip_spaces(s: &Vec<char>) -> (r: usize)
    ensures
        r as int == spec_rskip_spaces(s@, s@.len() as int),
        r <= s@.len(),
{
    let n = s.len();
    let mut i: usize = n;
    while i > 0
        invariant
            n == s@.len(),
            0 <= i <= n,
            spec_rskip_spaces(s@, n as int) == spec_rskip_spaces(s@, i as int),
        decreases i,
    {
        if !is_space(s[i - 1]) {
            return i;
        }
        i -= 1;
    }
    0
}

/// `s` with leading and trailing white space removed.
pub fn trim(s: &Vec<char>) -> (r: Vec<char>)
    ensures
        r@ == spec_trim(s@),
{
    let a = skip_spaces(s);
    let b = rskip_spaces(s);
    if a <= b {
        sub_vec(s, a, b)
    } else {
        Vec::new()
    }
}

/// `l` with one trailing carriage return removed, as `str::lines` does.
pub open spec fn spec_strip_cr(l: Seq<char>) -> Seq<char> {
    if l.len() > 0 && l.last() == '\r' {
        l.drop_last()
    } else {
        l
    }
}

/// The lines of `c`, split on line feeds, each stripped of one trailing
/// carriage return, the empty tail after a final line feed dropped: the
/// segmentation `str::lines` produces.
pub open spec fn spec_lines(c: Seq<char>) -> Seq<Seq<char>>
    decreases c.len(),
{
    if c.len() == 0 {
        Seq::empty()
    } else {
        match spec_find_char(c, '\n', 0) {
            None => seq![spec_strip_cr(c)],
            Some(i) => if 0 <= i < c.len() {
                seq![spec_strip_cr(c.subrange(0, i))] + spec_lines(c.subrange(i + 1, c.len() as int))
            } else {
                // spec_find_char never returns an out-of-range position
                seq![spec_strip_cr(c)]
            },
        }
    }
}

/// Searching from `from` in `c` is searching from `from - pos` in the suffix
/// of `c` that starts at `pos`.
pub proof fn lemma_find_char_suffix(c: Seq<char>, ch: char, pos: int, from: int)
    requires
        0 <= pos <= from <= c.len(),
    ensures
        spec_find_char(c, ch, from) == match spec_find_char(
            c.subrange(pos, c.len() as int),
            ch,
            from - pos,
        ) {
            None => None::<int>,
            Some(j) => Some(j + pos),
        },
    decreases c.len() - from,
{
    let suf = c.subrange(pos, c.len() as int);
    if from >= c.len() {
    } else {
        assert(suf[from - pos] == c[from]);
        if c[from] == ch {
        } else {
            lemma_find_char_suffix(c, ch, pos, from + 1);
        }
    }
}

/// `l` with one trailing carriage return removed.
pub fn strip_cr(l: Vec<char>) -> (r: Vec<char>)
    ensures
        r@ == spec_strip_cr(l@),
{
    let mut l = l;
    if l.len() > 0 && l[l.len() - 1] == '\r' {
        l.pop();
    }
    l
}

/// Splits `c` into its lines.
pub fn split_lines(c: &Vec<char>) -> (r: Vec<Vec<char>>)
    ensures
        r.deep_view() == spec_lines(c@),
{
    let n = c.len();
    let mut out: Vec<Vec<char>> = Vec::new();
    let mut pos: usize = 0;
    proof {
        assert(c@.subrange(0, n as int) =~= c@);
        assert(out.deep_view() =~~= Seq::<Seq<char>>::empty());
    }
    while pos < n
        invariant
            n == c@.len(),
            pos <= n,
            spec_lines(c@) =~= out.deep_view() + spec_lines(c@.subrange(pos as int, n as int)),
        decreases n - pos,
    {
        let ghost suf = c@.subrange(pos as int, n as int);
        let ghost out0 = out.deep_view();
        match find_char(c, '\n', pos) {
            Some(i) => {
                proof {
                    lemma_find_char_properties(c@, '\n', pos as int);
                    lemma_find_char_suffix(c@, '\n', pos as int, pos as int);
                    assert(spec_find_char(suf, '\n', 0) == Some(i - pos));
                    assert(suf.subrange(0, i - pos) =~= c@.subrange(pos as int, i as int));
                    assert(suf.subrange(i - pos + 1, suf.len() as int) =~= c@.subrange(
                        i + 1,
                        n as int,
                    ));
                }
                let piece = strip_cr(sub_vec(c, pos, i));
                out.push(piece);
                proof {
                    assert(out.deep_view() =~~= out0 + seq![
                        spec_strip_cr(c@.subrange(pos as int, i as int)),
                    ]);
                }
                pos = i + 1;
            },
            None => {
                proof {
                    lemma_find_char_suffix(c@, '\n', pos as int, pos as int);
                    assert(spec_find_char(suf, '\n', 0) is None);
                    assert(suf =~= c@.subrange(pos as int, n as int));
                }
                let piece = strip_cr(sub_vec(c, pos, n));
                out.push(piece);
                proof {
                    assert(out.deep_view() =~~= out0 + seq![spec_strip_cr(suf)]);
                    assert(spec_lines(c@.subrange(n as int, n as int)) =~= Seq::empty());
                }
                pos = n;
            },
        }
    }
    proof {
        assert(spec_lines(c@.subrange(n as int, n as int)) =~= Seq::empty());
        assert(out.deep_view() =~= out.deep_view() + Seq::empty());
    }
    out
}

/// The lines of `ls` joined with a line feed between each pair.
pub open spec fn spec_join(ls: Seq<Seq<char>>) -> Seq<char>
    decreases ls.len(),
{
    if ls.len() == 0 {
        Seq::empty()
    } else if ls.len() == 1 {
        ls[0]
    } else {
        ls[0] + seq!['\n'] + spec_join(ls.drop_first())
    }
}

/// Joining one more line appends a separator and the line.
pub proof fn lemma_join_push(ls: Seq<Seq<char>>, l: Seq<char>)
    ensures
        spec_join(ls.push(l)) == if ls.len() == 0 {
            l
        } else {
            spec_join(ls) + seq!['\n'] + l
        },
    decreases ls.len(),
{
    let p = ls.push(l);
    if ls.len() == 0 {
        assert(p.len() == 1 && p[0] == l);
        assert(spec_join(p) =~= l);
    } else if ls.len() == 1 {
        assert(p.drop_first() =~= Seq::empty().push(l));
        assert(p.drop_first().len() == 1 && p.drop_first()[0] == l);
        assert(spec_join(p.drop_first()) == l);
        assert(p[0] == ls[0]);
        assert(spec_join(p) == ls[0] + seq!['\n'] + l);
        assert(spec_join(ls) == ls[0]);
    } else {
        lemma_join_push(ls.drop_first(), l);
        assert(p.drop_first() =~= ls.drop_first().push(l));
        assert(p[0] == ls[0]);
        assert(spec_join(p) == p[0] + seq!['\n'] + spec_join(p.drop_first()));
        assert(spec_join(p.drop_first()) == spec_join(ls.drop_first()) + seq!['\n'] + l);
        assert(spec_join(ls) == ls[0] + seq!['\n'] + spec_join(ls.drop_first()));
        assert(spec_join(p) =~= spec_join(ls) + seq!['\n'] + l);
    }
}

/// A document in line-normal form: it ends with a line feed, and no line feed
/// follows a carriage return.
pub open spec fn spec_line_normal(c: Seq<char>) -> bool {
    c.len() > 0 && c.last() == '\n' && forall|i: int|
        0 < i < c.len() && #[trigger] c[i] == '\n' ==> c[i - 1] != '\r'
}

/// A nonempty document splits into at least one line.
proof fn lemma_lines_nonempty(c: Seq<char>)
    requires
        c.len() > 0,
    ensures
        spec_lines(c).len() >= 1,
{
}

/// Splitting a line-normal document into lines and joining them again, with
/// the trailing line feed restored, reproduces it byte for byte.
pub proof fn lemma_split_join_inverse(c: Seq<char>)
    requires
        spec_line_normal(c),
    ensures
        spec_join(spec_lines(c)) + seq!['\n'] == c,
    decreases c.len(),
{
    lemma_find_char_properties(c, '\n', 0);
    let k = match spec_find_char(c, '\n', 0) {
        Some(k) => k,
        None => {
            assert(c[c.len() - 1] == '\n');
            assert(false);
            0int
        },
    };
    let first = c.subrange(0, k);
    let rest = c.subrange(k + 1, c.len() as int);
    assert(spec_strip_cr(first) == first) by {
        if first.len() > 0 {
            assert(c[k] == '\n' && k > 0);
            assert(first.last() == c[k - 1]);
        }
    }
    if k == c.len() - 1 {
        assert(c.subrange(k + 1, c.len() as int) =~= Seq::<char>::empty());
        assert(spec_lines(c.subrange(k + 1, c.len() as int)) =~= Seq::<Seq<char>>::empty());
        assert(spec_lines(c) =~= seq![spec_strip_cr(first)] + spec_lines(
            c.subrange(k + 1, c.len() as int),
        ));
        assert(spec_lines(c) =~= seq![first]);
        assert(spec_join(spec_lines(c)) == first);
        assert(first + seq!['\n'] =~= c);
    } else {
        assert(rest.len() > 0);
        assert(rest.last() == c.last());
        assert forall|i: int| 0 < i < rest.len() && #[trigger] rest[i] == '\n' implies rest[i - 1]
            != '\r' by {
            assert(rest[i] == c[k + 1 + i]);
            assert(rest[i - 1] == c[k + i]);
        }
        lemma_split_join_inverse(rest);
        lemma_lines_nonempty(rest);
        let ls = spec_lines(c);
        assert(ls == seq![first] + spec_lines(rest));
        assert(ls.len() >= 2);
        assert(ls[0] == first);
        assert(ls.drop_first() =~= spec_lines(rest));
        assert(spec_join(ls) == first + seq!['\n'] + spec_join(spec_lines(rest)));
        assert(spec_join(ls) + seq!['\n'] =~= first + seq!['\n'] + (spec_join(spec_lines(rest))
            + seq!['\n']));
        assert(first + seq!['\n'] + rest =~= c);
    }
}

/// Joins lines with line feeds and appends one trailing line feed.
pub fn join_lines(ls: &Vec<Vec<char>>) -> (r: Vec<char>)
    ensures
        r@ == spec_join(ls.deep_view()) + seq!['\n'],
{
    let n = ls.len();
    let mut out: Vec<char> = Vec::new();
    let mut k: usize = 0;
    while k < n
        invariant
            n == ls@.len(),
            k <= n,
            out@ =~= spec_join(ls.deep_view().take(k as int)),
        decreases n - k,
    {
        let ghost lsv = ls.deep_view();
        proof {
            lemma_join_push(lsv.take(k as int), lsv[k as int]);
            assert(lsv.take(k as int).push(lsv[k as int]) =~= lsv.take(k + 1));
        }
        if k > 0 {
            out.push('\n');
        }
        push_all(&mut out, &ls[k]);
        proof {
            assert(ls.deep_view()[k as int] == ls@[k as int]@);
            assert(out@ =~= spec_join(ls.deep_view().take(k + 1)));
        }
        k += 1;
    }
    proof {
        assert(ls.deep_view().take(n as int) =~= ls.deep_view());
    }
    out.push('\n');
    proof {
        assert(out@ =~= spec_join(ls.deep_view()) + seq!['\n']);
    }
    out
}

/// Appends all of `src` to `dst`.
pub fn push_all<T: Copy>(dst: &mut Vec<T>, src: &Vec<T>)
    ensures
        final(dst)@ == old(dst)@ + src@,
{
    let mut i: usize = 0;
    while i < src.len()
        invariant
            i <= src@.len(),
            dst@ == old(dst)@ + src@.subrange(0, i as int),
        decreases src@.len() - i,
    {
        dst.push(src[i]);
        assert(dst@ =~= old(dst)@ + src@.subrange(0, i + 1));
        i += 1;
    }
    assert(dst@ =~= old(dst)@ + src@);
}

} // verus!
