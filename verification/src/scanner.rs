//! Document discovery: finds the markdown files a check walks over.

use vstd::prelude::*;

use crate::errors::DriftError;
use crate::fsio::{glob_paths, path_exists, path_is_file};
use crate::paths::{is_hidden, spec_is_hidden};
use crate::text::{
    from_chars, lemma_rfind_char_properties, spec_after, spec_rfind_char, sub_vec, to_chars,
};

verus! {

/// Whether `c` is `low` or its upper-case form.
pub open spec fn spec_eqi(c: char, low: char, up: char) -> bool {
    c == low || c == up
}

/// Whether an extension spells `md` or `markdown`, ignoring letter case.
pub open spec fn spec_is_md_ext(e: Seq<char>) -> bool {
    (e.len() == 2 && spec_eqi(e[0], 'm', 'M') && spec_eqi(e[1], 'd', 'D')) || (e.len() == 8
        && spec_eqi(e[0], 'm', 'M') && spec_eqi(e[1], 'a', 'A') && spec_eqi(e[2], 'r', 'R')
        && spec_eqi(e[3], 'k', 'K') && spec_eqi(e[4], 'd', 'D') && spec_eqi(e[5], 'o', 'O')
        && spec_eqi(e[6], 'w', 'W') && spec_eqi(e[7], 'n', 'N'))
}

/// Whether a path names a markdown document: the extension of its last
/// segment spells `md` or `markdown` in any letter case. A leading dot alone
/// starts no extension.
pub open spec fn spec_is_markdown(p: Seq<char>) -> bool {
    let seg = match spec_rfind_char(p, '/', p.len() as int) {
        None => p,
        Some(i) => spec_after(p, i + 1),
    };
    match spec_rfind_char(seg, '.', seg.len() as int) {
        None => false,
        Some(j) => if 0 < j < seg.len() {
            spec_is_md_ext(seg.subrange(j + 1, seg.len() as int))
        } else {
            false
        },
    }
}

/// Whether `path` names a markdown document.
pub fn is_markdown(path: &str) -> (r: bool)
    ensures
        r == spec_is_markdown(path@),
{
    let chars = to_chars(path);
    let n = chars.len();
    proof {
        lemma_rfind_char_properties(chars@, '/', n as int);
    }
    let seg = match crate::text::rfind_char(&chars, '/') {
        None => chars,
        Some(i) => sub_vec(&chars, i + 1, n),
    };
    let m = seg.len();
    proof {
        lemma_rfind_char_properties(seg@, '.', m as int);
    }
    let j = match crate::text::rfind_char(&seg, '.') {
        None => {
            return false;
        },
        Some(j) => j,
    };
    if j == 0 {
        return false;
    }
    let ext = sub_vec(&seg, j + 1, m);
    if ext.len() == 2 {
        (ext[0] == 'm' || ext[0] == 'M') && (ext[1] == 'd' || ext[1] == 'D')
    } else if ext.len() == 8 {
        (ext[0] == 'm' || ext[0] == 'M') && (ext[1] == 'a' || ext[1] == 'A') && (ext[2] == 'r'
            || ext[2] == 'R') && (ext[3] == 'k' || ext[3] == 'K') && (ext[4] == 'd' || ext[4]
            == 'D') && (ext[5] == 'o' || ext[5] == 'O') && (ext[6] == 'w' || ext[6] == 'W') && (
        ext[7] == 'n' || ext[7] == 'N')
    } else {
        false
    }
}

/// Finds the markdown documents under `target`, or under the current
/// directory when no target is given, sorted ascending in the path order. A
/// file target must itself be markdown; a directory is walked recursively,
/// hidden entries skipped.
pub fn find_markdown_files(target: Option<&str>) -> (r: Result<Vec<String>, DriftError>)
    ensures
        match r {
            Ok(v) => {
                &&& forall|k: int| 0 <= k < v@.len() ==> spec_is_markdown(v.deep_view()[k])
                &&& vstd::relations::sorted_by(v.deep_view(), crate::digest::path_order())
            },
            Err(e) => e == DriftError::NoMatch || e == DriftError::IoError,
        },
{
    let start: &str = match target {
        None => ".",
        Some(t) => t,
    };
    if path_is_file(start) {
        if is_markdown(start) {
            let mut one: Vec<String> = Vec::new();
            one.push(String::from_str(start));
            proof {
                assert(one.deep_view().len() == 1);
                assert(one.deep_view()[0] == start@);
                assert(vstd::relations::sorted_by(
                    one.deep_view(),
                    crate::digest::path_order(),
                ));
            }
            return Ok(one);
        } else {
            return Err(DriftError::NoMatch);
        }
    }
    if !path_exists(start) {
        return Err(DriftError::IoError);
    }
    let pattern = String::from_str(start).concat("/**/*");
    let found = match glob_paths(pattern.as_str()) {
        Err(_) => {
            return Err(DriftError::IoError);
        },
        Ok(v) => v,
    };
    let start_chars = to_chars(start);
    let base = start_chars.len();
    let n = found.len();
    let mut out: Vec<String> = Vec::new();
    let mut i: usize = 0;
    while i < n
        invariant
            n == found@.len(),
            i <= n,
            forall|k: int| 0 <= k < out@.len() ==> spec_is_markdown(out@[k]@),
        decreases n - i,
    {
        let pc = to_chars(found[i].as_str());
        let m = pc.len();
        let rel_start = if m > base {
            base + 1
        } else {
            m
        };
        let rel = sub_vec(&pc, rel_start, m);
        let rel_str = from_chars(&rel);
        if !is_hidden(rel_str.as_str()) && path_is_file(found[i].as_str()) && is_markdown(
            found[i].as_str(),
        ) {
            out.push(found[i].clone());
        }
        i += 1;
    }
    let ghost odv = out.deep_view();
    proof {
        assert forall|k: int| 0 <= k < odv.len() implies spec_is_markdown(odv[k]) by {
            assert(odv[k] == out@[k].deep_view());
        }
    }
    let sorted = crate::digest::sort_paths(out);
    proof {
        broadcast use vstd::seq_lib::group_to_multiset_ensures;

        let sdv = sorted.deep_view();
        assert forall|k: int| 0 <= k < sdv.len() implies spec_is_markdown(sdv[k]) by {
            assert(sdv.contains(sdv[k]));
            assert(sdv.to_multiset().count(sdv[k]) > 0);
            assert(odv.to_multiset().count(sdv[k]) > 0);
            assert(odv.contains(sdv[k]));
            let j = choose|j: int| 0 <= j < odv.len() && odv[j] == sdv[k];
            assert(spec_is_markdown(odv[j]));
        }
        assert(sdv.len() == sorted@.len());
    }
    Ok(sorted)
}

} // verus!
