//! Paths as texts with `/` between their parts. Every function here is
//! lexical: none looks at a disk, and a path is taken as it is written, so
//! that a `/` at its end opens an empty last part.

use crate::text::{append_chars, chars_of, copy_range, find_last, has_prefix, last_index_of,
    lemma_last_index_of, starts_with, text_of};
use vstd::prelude::*;
use vstd::string::StringSliceAdditionalSpecFns;

verus! {

/// The part of `path` behind its last `/`; all of `path` where it has none.
pub open spec fn base_name(path: Seq<char>) -> Seq<char> {
    match last_index_of(path, '/') {
        Some(i) => path.skip(i + 1),
        None => path,
    }
}

/// The directory that holds `path`: what stands before the last `/`. The
/// root `/` and the empty path have none; a path without `/` lies in the
/// empty path.
pub open spec fn parent_dir(path: Seq<char>) -> Option<Seq<char>> {
    match last_index_of(path, '/') {
        Some(i) => if i > 0 {
            Some(path.take(i))
        } else if path.len() == 1 {
            None
        } else {
            Some(seq!['/'])
        },
        None => if path.len() == 0 {
            None
        } else {
            Some(Seq::empty())
        },
    }
}

/// The extension of the base name: what follows its last `.`, unless that
/// `.` opens the name or the name has none.
pub open spec fn extension(path: Seq<char>) -> Option<Seq<char>> {
    let name = base_name(path);
    match last_index_of(name, '.') {
        Some(i) => if i > 0 {
            Some(name.skip(i + 1))
        } else {
            None
        },
        None => None,
    }
}

/// `rel` seen from `dir`: `rel` itself where it starts at the root or `dir`
/// is empty, else `dir`, one `/` and `rel`.
pub open spec fn joined(dir: Seq<char>, rel: Seq<char>) -> Seq<char> {
    if rel.len() > 0 && rel[0] == '/' {
        rel
    } else if dir.len() == 0 {
        rel
    } else if dir.last() == '/' {
        dir + rel
    } else {
        dir + seq!['/'] + rel
    }
}

/// `path` is `root` or lies below it: `root` is a prefix of `path` that ends
/// where a part of `path` ends.
pub open spec fn is_within(path: Seq<char>, root: Seq<char>) -> bool {
    root.len() == 0 || (has_prefix(path, root) && (path.len() == root.len() || root.last() == '/'
        || path[root.len() as int] == '/'))
}

/// The base name of a Python package initialiser.
pub open spec fn init_name() -> Seq<char> {
    seq!['_', '_', 'i', 'n', 'i', 't', '_', '_', '.', 'p', 'y']
}

/// `path` names a Python package initialiser.
pub open spec fn is_init_path(path: Seq<char>) -> bool {
    base_name(path) == init_name()
}

/// Whether two texts hold the same characters.
pub fn same_text(a: &str, b: &str) -> (r: bool)
    ensures
        r == (a@ == b@),
{
    let x = a.as_bytes();
    let y = b.as_bytes();
    proof {
        vstd::utf8::encode_utf8_decode_utf8(a@);
        vstd::utf8::encode_utf8_decode_utf8(b@);
    }
    if x.len() != y.len() {
        return false;
    }
    let mut i: usize = 0;
    while i < x.len()
        invariant
            i <= x.len(),
            x.len() == y.len(),
            x@ == a.spec_bytes(),
            y@ == b.spec_bytes(),
            forall|k: int| 0 <= k < i ==> x@[k] == y@[k],
        decreases x.len() - i,
    {
        if x[i] != y[i] {
            return false;
        }
        i += 1;
    }
    proof {
        assert(x@ =~= y@);
    }
    true
}

/// The base name of `path`.
pub fn file_name(path: &str) -> (r: String)
    ensures
        r@ == base_name(path@),
{
    let chars = chars_of(path);
    match find_last(&chars, '/') {
        Some(i) => {
            proof {
                lemma_last_index_of(chars@, '/');
            }
            text_of(&copy_range(&chars, i + 1, chars.len()))
        },
        None => text_of(&chars),
    }
}

/// The directory that holds `path`, if it has one.
pub fn parent(path: &str) -> (r: Option<String>)
    ensures
        match r {
            Some(dir) => parent_dir(path@) == Some(dir@),
            None => parent_dir(path@) is None,
        },
{
    let chars = chars_of(path);
    match find_last(&chars, '/') {
        Some(i) => {
            proof {
                lemma_last_index_of(chars@, '/');
            }
            if i > 0 {
                Some(text_of(&copy_range(&chars, 0, i)))
            } else if chars.len() == 1 {
                None
            } else {
                let dir = text_of(&copy_range(&chars, 0, 1));
                Some(dir)
            }
        },
        None => {
            if chars.len() == 0 {
                None
            } else {
                Some(String::new())
            }
        },
    }
}

/// The extension of `path`, if it has one.
pub fn file_extension(path: &str) -> (r: Option<String>)
    ensures
        match r {
            Some(ext) => extension(path@) == Some(ext@),
            None => extension(path@) is None,
        },
{
    let name = file_name(path);
    let chars = chars_of(name.as_str());
    match find_last(&chars, '.') {
        Some(i) => {
            proof {
                lemma_last_index_of(chars@, '.');
            }
            if i > 0 {
                Some(text_of(&copy_range(&chars, i + 1, chars.len())))
            } else {
                None
            }
        },
        None => None,
    }
}

/// `rel` seen from the directory `dir`.
pub fn join(dir: &str, rel: &str) -> (r: String)
    ensures
        r@ == joined(dir@, rel@),
{
    let d = chars_of(dir);
    let t = chars_of(rel);
    if t.len() > 0 && t[0] == '/' {
        text_of(&t)
    } else if d.len() == 0 {
        text_of(&t)
    } else {
        let mut out = d;
        if out[out.len() - 1] != '/' {
            out.push('/');
        }
        append_chars(&mut out, &t);
        text_of(&out)
    }
}

/// Whether `path` is `root` or lies below it.
pub fn lies_within(path: &str, root: &str) -> (r: bool)
    ensures
        r == is_within(path@, root@),
{
    let p = chars_of(path);
    let base = chars_of(root);
    if base.len() == 0 {
        return true;
    }
    if !starts_with(&p, &base) {
        return false;
    }
    p.len() == base.len() || base[base.len() - 1] == '/' || p[base.len()] == '/'
}

/// Whether `path` names a Python package initialiser.
pub fn is_init_file(path: &str) -> (r: bool)
    ensures
        r == is_init_path(path@),
{
    let name = file_name(path);
    proof {
        reveal_strlit("__init__.py");
        assert("__init__.py"@ =~= init_name());
    }
    same_text(name.as_str(), "__init__.py")
}

} // verus!
