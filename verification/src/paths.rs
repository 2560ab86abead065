//! The pattern resolver: maps a watch pattern (literal path, glob, or
//! project-root-relative path) to a concrete set of files on disk.

use vstd::prelude::*;

use crate::errors::DriftError;
use crate::text::{
    find_char, from_chars, lemma_find_char_properties, lemma_find_char_suffix, push_all,
    spec_find_char, sub_vec, to_chars,
};

verus! {

/// Whether a pattern holds a glob metacharacter, which decides, purely
/// lexically, whether it is expanded or treated as a literal path.
pub open spec fn spec_is_glob(p: Seq<char>) -> bool {
    exists|i: int| 0 <= i < p.len() && (p[i] == '*' || p[i] == '?' || p[i] == '[')
}

/// Whether `s` contains a glob metacharacter.
pub fn is_glob_pattern(s: &str) -> (r: bool)
    ensures
        r == spec_is_glob(s@),
{
    let chars = to_chars(s);
    let n = chars.len();
    let mut i: usize = 0;
    while i < n
        invariant
            chars@ == s@,
            n == chars@.len(),
            i <= n,
            forall|k: int| 0 <= k < i ==> !(s@[k] == '*' || s@[k] == '?' || s@[k] == '['),
        decreases n - i,
    {
        let c = chars[i];
        if c == '*' || c == '?' || c == '[' {
            return true;
        }
        i += 1;
    }
    false
}

/// Whether one path segment is hidden: it starts with a dot and is neither
/// the current- nor the parent-directory segment.
pub open spec fn spec_seg_hidden(s: Seq<char>) -> bool {
    s.len() > 0 && s[0] == '.' && s != seq!['.'] && s != seq!['.', '.']
}

/// Whether any segment of a slash-separated path is hidden.
pub open spec fn spec_is_hidden(p: Seq<char>) -> bool
    decreases p.len(),
{
    if p.len() == 0 {
        false
    } else {
        match spec_find_char(p, '/', 0) {
            None => spec_seg_hidden(p),
            Some(i) => if 0 <= i < p.len() {
                spec_seg_hidden(p.subrange(0, i)) || spec_is_hidden(p.subrange(i + 1, p.len() as int))
            } else {
                // spec_find_char never returns an out-of-range position
                spec_seg_hidden(p)
            },
        }
    }
}

/// Whether one segment is hidden.
fn seg_hidden(seg: &Vec<char>) -> (r: bool)
    ensures
        r == spec_seg_hidden(seg@),
{
    if seg.len() == 0 {
        return false;
    }
    if seg[0] != '.' {
        return false;
    }
    if seg.len() == 1 {
        proof {
            assert(seg@ =~= seq!['.']);
        }
        return false;
    }
    if seg.len() == 2 && seg[1] == '.' {
        proof {
            assert(seg@ =~= seq!['.', '.']);
        }
        return false;
    }
    proof {
        assert(seg@.len() != 1);
        if seg@.len() == 2 {
            assert(seg@[1] != '.');
        }
        assert(seg@ != seq!['.']);
        assert(seg@ != seq!['.', '.']);
    }
    true
}

/// Whether a path has a hidden segment: a component that starts with a dot,
/// the singleton current- and parent-directory segments excepted.
pub fn is_hidden(path: &str) -> (r: bool)
    ensures
        r == spec_is_hidden(path@),
{
    let chars = to_chars(path);
    let n = chars.len();
    let mut pos: usize = 0;
    proof {
        assert(chars@.subrange(0, n as int) =~= chars@);
    }
    while pos < n
        invariant
            chars@ == path@,
            n == chars@.len(),
            pos <= n,
            spec_is_hidden(path@) == spec_is_hidden(chars@.subrange(pos as int, n as int)),
        decreases n - pos,
    {
        let ghost suf = chars@.subrange(pos as int, n as int);
        match find_char(&chars, '/', pos) {
            Some(i) => {
                proof {
                    lemma_find_char_properties(chars@, '/', pos as int);
                    lemma_find_char_suffix(chars@, '/', pos as int, pos as int);
                    assert(spec_find_char(suf, '/', 0) == Some(i - pos));
                    assert(suf.subrange(0, i - pos) =~= chars@.subrange(pos as int, i as int));
                    assert(suf.subrange(i - pos + 1, suf.len() as int) =~= chars@.subrange(
                        i + 1,
                        n as int,
                    ));
                }
                let seg = sub_vec(&chars, pos, i);
                if seg_hidden(&seg) {
                    return true;
                }
                pos = i + 1;
            },
            None => {
                proof {
                    lemma_find_char_suffix(chars@, '/', pos as int, pos as int);
                    assert(spec_find_char(suf, '/', 0) is None);
                }
                let seg = sub_vec(&chars, pos, n);
                return seg_hidden(&seg);
            },
        }
    }
    proof {
        assert(chars@.subrange(n as int, n as int) =~= Seq::<char>::empty());
    }
    false
}

/// The paths whose part after position `from` has no hidden segment, in
/// order.
pub open spec fn spec_visible_from(paths: Seq<Seq<char>>, from: int) -> Seq<Seq<char>>
    decreases paths.len(),
{
    if paths.len() == 0 {
        Seq::empty()
    } else {
        let rest = spec_visible_from(paths.drop_first(), from);
        if !spec_is_hidden(crate::text::spec_after(paths[0], from)) {
            seq![paths[0]] + rest
        } else {
            rest
        }
    }
}

/// Filtering one more path appends it exactly when it is visible.
proof fn lemma_visible_push(paths: Seq<Seq<char>>, from: int, p: Seq<char>)
    ensures
        spec_visible_from(paths.push(p), from) == spec_visible_from(paths, from) + (if !spec_is_hidden(
            crate::text::spec_after(p, from),
        ) {
            seq![p]
        } else {
            Seq::empty()
        }),
    decreases paths.len(),
{
    let pp = paths.push(p);
    if paths.len() == 0 {
        assert(pp.drop_first() =~= Seq::<Seq<char>>::empty());
        assert(pp[0] == p);
        assert(spec_visible_from(pp.drop_first(), from) =~= Seq::<Seq<char>>::empty());
        assert(spec_visible_from(paths, from) =~= Seq::<Seq<char>>::empty());
        assert(spec_visible_from(pp, from) =~= spec_visible_from(paths, from) + (
        if !spec_is_hidden(crate::text::spec_after(p, from)) {
            seq![p]
        } else {
            Seq::<Seq<char>>::empty()
        }));
    } else {
        lemma_visible_push(paths.drop_first(), from, p);
        assert(pp.drop_first() =~= paths.drop_first().push(p));
        assert(pp[0] == paths[0]);
        assert(spec_visible_from(pp, from) =~= spec_visible_from(paths, from) + (
        if !spec_is_hidden(crate::text::spec_after(p, from)) {
            seq![p]
        } else {
            Seq::<Seq<char>>::empty()
        }));
    }
}

/// Every path the visibility filter keeps is visible below `from`.
pub proof fn lemma_visible_from_props(paths: Seq<Seq<char>>, from: int)
    ensures
        forall|k: int|
            0 <= k < spec_visible_from(paths, from).len() ==> !spec_is_hidden(
                crate::text::spec_after(spec_visible_from(paths, from)[k], from),
            ),
    decreases paths.len(),
{
    if paths.len() == 0 {
    } else {
        lemma_visible_from_props(paths.drop_first(), from);
        let kept = spec_visible_from(paths, from);
        let rest = spec_visible_from(paths.drop_first(), from);
        assert forall|k: int| 0 <= k < kept.len() implies !spec_is_hidden(
            crate::text::spec_after(kept[k], from),
        ) by {
            if !spec_is_hidden(crate::text::spec_after(paths[0], from)) {
                if k > 0 {
                    assert(kept[k] == rest[k - 1]);
                }
            } else {
                assert(kept[k] == rest[k]);
            }
        }
    }
}

/// Keeps exactly the paths whose part after position `from` has no hidden
/// segment, in order.
pub fn keep_visible(paths: &Vec<String>, from: usize) -> (r: Vec<String>)
    ensures
        r.deep_view() == spec_visible_from(paths.deep_view(), from as int),
{
    let n = paths.len();
    let mut out: Vec<String> = Vec::new();
    let mut i: usize = 0;
    proof {
        assert(paths.deep_view().len() == n);
        assert(out.deep_view() =~~= spec_visible_from(paths.deep_view().take(0), from as int));
    }
    while i < n
        invariant
            n == paths@.len(),
            i <= n,
            out.deep_view() == spec_visible_from(paths.deep_view().take(i as int), from as int),
        decreases n - i,
    {
        let ghost pdv = paths.deep_view();
        proof {
            lemma_visible_push(pdv.take(i as int), from as int, pdv[i as int]);
            assert(pdv.take(i as int).push(pdv[i as int]) =~= pdv.take(i + 1));
        }
        let pc = to_chars(paths[i].as_str());
        let m = pc.len();
        let rel = if from <= m {
            sub_vec(&pc, from, m)
        } else {
            Vec::new()
        };
        proof {
            assert(rel@ == crate::text::spec_after(pdv[i as int], from as int));
        }
        let rel_str = from_chars(&rel);
        let ghost out0 = out.deep_view();
        if !is_hidden(rel_str.as_str()) {
            out.push(paths[i].clone());
            proof {
                assert(out.deep_view() =~~= out0 + seq![pdv[i as int]]);
            }
        }
        i += 1;
        proof {
            assert(out.deep_view() =~~= spec_visible_from(pdv.take(i as int), from as int));
        }
    }
    proof {
        assert(paths.deep_view().take(n as int) =~= paths.deep_view());
    }
    out
}

/// The directory that holds a document: the path up to its last separator,
/// the root for a top-level absolute path, and the current directory for a
/// bare file name.
pub open spec fn spec_doc_dir(p: Seq<char>) -> Seq<char> {
    match crate::text::spec_rfind_char(p, '/', p.len() as int) {
        None => seq!['.'],
        Some(i) => if i == 0 {
            seq!['/']
        } else if 0 < i < p.len() {
            p.subrange(0, i)
        } else {
            // spec_rfind_char never returns an out-of-range position
            seq!['.']
        },
    }
}

/// The directory that holds the document at `path`.
fn doc_dir_of(path: &str) -> (r: String)
    ensures
        r@ == spec_doc_dir(path@),
{
    let chars = to_chars(path);
    proof {
        crate::text::lemma_rfind_char_properties(chars@, '/', chars@.len() as int);
    }
    match crate::text::rfind_char(&chars, '/') {
        None => {
            let mut v: Vec<char> = Vec::new();
            v.push('.');
            proof {
                assert(v@ =~= seq!['.']);
            }
            from_chars(&v)
        },
        Some(i) => {
            if i == 0 {
                let mut v: Vec<char> = Vec::new();
                v.push('/');
                proof {
                    assert(v@ =~= seq!['/']);
                }
                from_chars(&v)
            } else {
                let head = sub_vec(&chars, 0, i);
                from_chars(&head)
            }
        },
    }
}

/// Resolves watch patterns relative to one document: literal and glob
/// patterns against the document's own directory, root-relative patterns
/// against the discovered project root.
#[derive(Debug)]
pub struct PathResolver {
    /// The directory that holds the document.
    pub doc_dir: String,
    /// The nearest ancestor directory holding a version-control marker.
    pub project_root: String,
}

/// Relies on nothing outside this crate: walks parent directories upward from
/// `start` until one holds a version-control marker directory.
fn find_project_root(start: &str) -> (r: Result<String, DriftError>)
    ensures
        r matches Err(e) ==> e == DriftError::ProjectRootNotFound,
{
    let mut current = match crate::fsio::canonicalize_path(start) {
        None => {
            return Err(DriftError::ProjectRootNotFound);
        },
        Some(c) => c,
    };
    loop
        decreases current@.len(),
    {
        let marker = current.clone().concat("/.git");
        if crate::fsio::path_exists(marker.as_str()) {
            return Ok(current);
        }
        let next = doc_dir_of(current.as_str());
        if next.as_str().unicode_len() >= current.as_str().unicode_len() {
            return Err(DriftError::ProjectRootNotFound);
        }
        current = next;
    }
}

/// The root-relative marker prefix.
pub open spec fn spec_root_prefix() -> Seq<char> {
    "$ROOT/"@
}

/// The base directory and effective sub-pattern for a watch pattern: a
/// root-relative pattern resolves against the project root, any other against
/// the document's directory.
pub open spec fn spec_base_and_sub(
    doc_dir: Seq<char>,
    root: Seq<char>,
    pattern: Seq<char>,
) -> (Seq<char>, Seq<char>) {
    if spec_root_prefix().is_prefix_of(pattern) {
        (root, pattern.skip(6))
    } else {
        (doc_dir, pattern)
    }
}

/// The base joined with the sub-pattern; an absolute sub-pattern stands
/// alone.
pub open spec fn spec_joined(base: Seq<char>, sub: Seq<char>) -> Seq<char> {
    if sub.len() > 0 && sub[0] == '/' {
        sub
    } else {
        base + seq!['/'] + sub
    }
}

impl PathResolver {
    /// Builds a resolver for the document at `doc_path`: its own directory,
    /// and the project root discovered by walking parents upward until a
    /// version-control marker is found.
    pub fn new(doc_path: &str) -> (r: Result<PathResolver, DriftError>)
        ensures
            match r {
                Ok(res) => res.doc_dir@ == spec_doc_dir(doc_path@),
                Err(e) => e == DriftError::ProjectRootNotFound,
            },
    {
        let doc_dir = doc_dir_of(doc_path);
        let project_root = match find_project_root(doc_dir.as_str()) {
            Err(e) => {
                return Err(e);
            },
            Ok(root) => root,
        };
        Ok(PathResolver { doc_dir, project_root })
    }

    /// Expands a watch pattern into concrete paths. A glob pattern is
    /// expanded against the filesystem and hidden results are discarded; a
    /// literal path yields itself when it exists and the empty set when it
    /// does not — the caller decides whether empty is an error.
    pub fn resolve(&self, pattern: &str) -> (r: Result<Vec<String>, DriftError>)
        ensures
            ({
                let (base, sub) = spec_base_and_sub(self.doc_dir@, self.project_root@, pattern@);
                match r {
                    Ok(paths) => if spec_is_glob(sub) {
                        &&& forall|k: int|
                            0 <= k < paths@.len() ==> !spec_is_hidden(paths.deep_view()[k])
                        &&& exists|listing: Seq<Seq<char>>|
                            #![trigger listing.len()]
                            paths.deep_view() == spec_visible_from(listing, 0)
                    } else {
                        paths@.len() <= 1 && (paths@.len() == 1 ==> paths@[0]@ == spec_joined(
                            base,
                            sub,
                        ))
                    },
                    Err(e) => e == DriftError::InvalidPattern && spec_is_glob(sub),
                }
            }),
    {
        let pat_chars = to_chars(pattern);
        let marker = to_chars("$ROOT/");
        proof {
            reveal_strlit("$ROOT/");
        }
        let (base, sub) = if crate::text::starts_with(&pat_chars, &marker) {
            let n = pat_chars.len();
            let sub = sub_vec(&pat_chars, 6, n);
            proof {
                assert(sub@ =~= pattern@.skip(6));
            }
            (to_chars(self.project_root.as_str()), sub)
        } else {
            (to_chars(self.doc_dir.as_str()), pat_chars)
        };
        let mut joined: Vec<char>;
        if sub.len() > 0 && sub[0] == '/' {
            joined = sub_vec(&sub, 0, sub.len());
        } else {
            joined = sub_vec(&base, 0, base.len());
            joined.push('/');
            push_all(&mut joined, &sub);
        }
        let ghost gbase = base@;
        let ghost gsub = sub@;
        proof {
            assert(joined@ == spec_joined(gbase, gsub));
        }
        let joined_str = from_chars(&joined);
        let sub_str = from_chars(&sub);
        if is_glob_pattern(sub_str.as_str()) {
            let found = match crate::fsio::glob_paths(joined_str.as_str()) {
                Err(_) => {
                    return Err(DriftError::InvalidPattern);
                },
                Ok(v) => v,
            };
            let out = keep_visible(&found, 0);
            proof {
                let fdv = found.deep_view();
                let odv = out.deep_view();
                lemma_visible_from_props(fdv, 0);
                assert forall|k: int| 0 <= k < odv.len() implies !spec_is_hidden(odv[k]) by {
                    assert(!spec_is_hidden(crate::text::spec_after(odv[k], 0)));
                    assert(crate::text::spec_after(odv[k], 0) =~= odv[k]);
                }
                assert(fdv.len() == found@.len());
                assert(exists|listing: Seq<Seq<char>>|
                    #![trigger listing.len()]
                    odv == spec_visible_from(listing, 0));
                assert(odv.len() == out@.len());
            }
            Ok(out)
        } else {
            let mut out: Vec<String> = Vec::new();
            if crate::fsio::path_exists(joined_str.as_str()) {
                out.push(joined_str);
            }
            Ok(out)
        }
    }

    /// Computes the digest for a pattern. A single resolved directory is
    /// hashed recursively, a single file directly; several resolved paths are
    /// filtered to files and hashed together. A pattern that resolves to
    /// nothing hashable fails with no match.
    pub fn hash_pattern(&self, pattern: &str) -> (r: Result<String, DriftError>)
        ensures
            match r {
                Ok(d) => crate::digest::spec_is_digest(d@) && exists|b: Seq<u8>|
                    d@ == crate::digest::spec_sha256_hex(b),
                Err(e) => e == DriftError::NoMatch || e == DriftError::IoError || e
                    == DriftError::InvalidPattern,
            },
    {
        let paths = match self.resolve(pattern) {
            Err(e) => {
                return Err(e);
            },
            Ok(p) => p,
        };
        let single_is_dir = if paths.len() == 1 {
            crate::fsio::path_is_dir(paths[0].as_str())
        } else {
            false
        };
        let marks = crate::digest::file_marks(&paths);
        match plan_for(&paths, single_is_dir, &marks) {
            HashPlan::NoFiles => Err(DriftError::NoMatch),
            HashPlan::OneDirectory(p) => match crate::digest::hash_directory(p.as_str()) {
                Err(e) => Err(e),
                Ok(d) => {
                    proof {
                        if d@ != crate::digest::spec_sha256_hex(vstd::utf8::encode_utf8(p@)) {
                            let files = choose|files: Seq<(Seq<char>, Seq<u8>)>|
                                d@ == crate::digest::spec_hash_many(files);
                            assert(d@ == crate::digest::spec_hash_many(files));
                        }
                    }
                    Ok(d)
                },
            },
            HashPlan::OneFile(p) => crate::digest::hash_file(p.as_str()),
            HashPlan::ManyFiles(files) => match crate::digest::hash_files(&files) {
                Err(e) => Err(e),
                Ok(d) => {
                    proof {
                        let cs = choose|cs: Seq<Seq<u8>>|
                            #![trigger cs.len()]
                            cs.len() == files@.len() && d@ == crate::digest::spec_hash_many(
                                Seq::new(files@.len() as nat, |i: int| (files@[i]@, cs[i])),
                            );
                        assert(d@ == crate::digest::spec_hash_many(
                            Seq::new(files@.len() as nat, |i: int| (files@[i]@, cs[i])),
                        ));
                    }
                    Ok(d)
                },
            },
        }
    }
}

/// How a resolved pattern is hashed.
pub enum HashPlan {
    /// Nothing hashable resolved.
    NoFiles,
    /// One path resolved, and the probe marked it a directory.
    OneDirectory(String),
    /// One path resolved, not a directory.
    OneFile(String),
    /// Several paths resolved: the file-marked ones, in order.
    ManyFiles(Vec<String>),
}

/// Routes a resolution outcome to its digest: nothing resolved hashes
/// nothing; a single path goes whole, as a directory or a file per its probe;
/// several paths are narrowed to the file-marked ones, and nothing hashable
/// remains when no mark is set.
pub fn plan_for(paths: &Vec<String>, single_is_dir: bool, marks: &Vec<bool>) -> (r: HashPlan)
    requires
        marks@.len() == paths@.len(),
    ensures
        paths@.len() == 0 ==> r is NoFiles,
        paths@.len() == 1 && single_is_dir ==> ({
            &&& r matches HashPlan::OneDirectory(p) && p@ == paths@[0]@
        }),
        paths@.len() == 1 && !single_is_dir ==> ({
            &&& r matches HashPlan::OneFile(p) && p@ == paths@[0]@
        }),
        paths@.len() > 1 ==> ({
            let kept = crate::digest::spec_marked(paths.deep_view(), marks@);
            if kept.len() == 0 {
                r is NoFiles
            } else {
                r matches HashPlan::ManyFiles(files) && files.deep_view() == kept
            }
        }),
{
    if paths.len() == 0 {
        HashPlan::NoFiles
    } else if paths.len() == 1 {
        if single_is_dir {
            HashPlan::OneDirectory(paths[0].clone())
        } else {
            HashPlan::OneFile(paths[0].clone())
        }
    } else {
        let files = crate::digest::keep_marked(paths, marks);
        if files.len() == 0 {
            proof {
                assert(files.deep_view().len() == 0);
            }
            HashPlan::NoFiles
        } else {
            proof {
                assert(files.deep_view().len() == files@.len());
            }
            HashPlan::ManyFiles(files)
        }
    }
}

} // verus!
