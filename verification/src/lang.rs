//! The supported languages, and for each the files it reads, the query that
//! finds its imports, and the rule that turns an import into a path.

use crate::path::{extension, file_extension, same_text};
use crate::text::{append_chars, chars_of, copy_range, count_leading, has_prefix, leading_count,
    repeated, replace_char, replaced, starts_with, text_of};
use vstd::prelude::*;

verus! {

/// A language whose imports the analysis follows.
#[derive(Clone, Copy, Debug, PartialEq, Eq, Structural)]
pub enum Lang {
    /// JavaScript and TypeScript.
    JavaScript,
    Python,
    Rust,
    /// C and C++.
    Cpp,
}

/// `s` with every `::` replaced by one `/`, read from the left.
pub open spec fn colons_to_slashes(s: Seq<char>) -> Seq<char>
    decreases s.len(),
{
    if s.len() == 0 {
        s
    } else if s.len() >= 2 && s[0] == ':' && s[1] == ':' {
        seq!['/'] + colons_to_slashes(s.skip(2))
    } else {
        seq![s[0]] + colons_to_slashes(s.skip(1))
    }
}

/// The path fragment that a Python module name stands for. Each leading dot
/// after the first climbs one directory; the dots between names become `/`.
pub open spec fn python_fragment(module: Seq<char>) -> Seq<char> {
    let dots = leading_count(module, '.');
    if dots > 0 {
        repeated(seq!['.', '.', '/'], (dots - 1) as nat) + replaced(
            module.skip(dots as int),
            '.',
            '/',
        )
    } else {
        replaced(module, '.', '/')
    }
}

/// The path fragment that a Rust module path stands for: `self::` is
/// dropped, `super::` climbs one directory, and every `::` becomes `/`.
pub open spec fn rust_fragment(module: Seq<char>) -> Seq<char> {
    if has_prefix(module, seq!['s', 'e', 'l', 'f', ':', ':']) {
        colons_to_slashes(module.skip(6))
    } else if has_prefix(module, seq!['s', 'u', 'p', 'e', 'r', ':', ':']) {
        colons_to_slashes(seq!['.', '.', '/'] + module.skip(7))
    } else {
        colons_to_slashes(module)
    }
}

impl Lang {
    /// The extensions of the files that the language reads.
    pub open spec fn extensions(self) -> Seq<Seq<char>> {
        match self {
            Lang::JavaScript => seq!["js"@, "jsx"@, "ts"@, "tsx"@],
            Lang::Python => seq!["py"@],
            Lang::Rust => seq!["rs"@],
            Lang::Cpp => seq!["c"@, "cpp"@, "h"@, "hpp"@, "hxx"@],
        }
    }

    /// The language reads the file at `path`.
    pub open spec fn accepts_path(self, path: Seq<char>) -> bool {
        match extension(path) {
            Some(ext) => self.extensions().contains(ext),
            None => false,
        }
    }

    /// What is appended to a path fragment to form the candidates, in the
    /// order in which they are tried.
    pub open spec fn suffixes(self) -> Seq<Seq<char>> {
        match self {
            Lang::JavaScript => seq![
                ""@,
                ".js"@,
                ".jsx"@,
                ".ts"@,
                ".tsx"@,
                "/index.js"@,
                "/index.jsx"@,
                "/index.ts"@,
                "/index.tsx"@,
            ],
            Lang::Python => seq![".py"@, "/__init__.py"@],
            Lang::Rust => seq![".rs"@, "/mod.rs"@],
            Lang::Cpp => seq![""@, ".h"@, ".hpp"@, ".hxx"@],
        }
    }

    /// The path fragment that an import literal stands for.
    pub open spec fn fragment(self, literal: Seq<char>) -> Seq<char> {
        match self {
            Lang::JavaScript => literal,
            Lang::Python => python_fragment(literal),
            Lang::Rust => rust_fragment(literal),
            Lang::Cpp => literal,
        }
    }

    /// The languages in the order in which a tree is analysed.
    pub open spec fn in_order() -> Seq<Lang> {
        seq![Lang::JavaScript, Lang::Python, Lang::Rust, Lang::Cpp]
    }

    /// The languages in the order in which a tree is analysed.
    pub fn all() -> (r: Vec<Lang>)
        ensures
            r@ == Lang::in_order(),
    {
        let mut out: Vec<Lang> = Vec::new();
        out.push(Lang::JavaScript);
        out.push(Lang::Python);
        out.push(Lang::Rust);
        out.push(Lang::Cpp);
        out
    }

    /// The first language, in the order of analysis, that reads the file
    /// at `path`.
    pub open spec fn reading_path(path: Seq<char>) -> Option<Lang> {
        if Lang::JavaScript.accepts_path(path) {
            Some(Lang::JavaScript)
        } else if Lang::Python.accepts_path(path) {
            Some(Lang::Python)
        } else if Lang::Rust.accepts_path(path) {
            Some(Lang::Rust)
        } else if Lang::Cpp.accepts_path(path) {
            Some(Lang::Cpp)
        } else {
            None
        }
    }

    /// The language that reads the file at `path`, if any does.
    pub fn reading(path: &str) -> (r: Option<Lang>)
        ensures
            r == Lang::reading_path(path@),
    {
        if Lang::JavaScript.accepts(path) {
            Some(Lang::JavaScript)
        } else if Lang::Python.accepts(path) {
            Some(Lang::Python)
        } else if Lang::Rust.accepts(path) {
            Some(Lang::Rust)
        } else if Lang::Cpp.accepts(path) {
            Some(Lang::Cpp)
        } else {
            None
        }
    }

    /// The extensions of the files that the language reads.
    pub fn extension_list(self) -> (r: Vec<&'static str>)
        ensures
            r.deep_view() == self.extensions(),
    {
        let mut out: Vec<&'static str> = Vec::new();
        match self {
            Lang::JavaScript => {
                out.push("js");
                out.push("jsx");
                out.push("ts");
                out.push("tsx");
            },
            Lang::Python => {
                out.push("py");
            },
            Lang::Rust => {
                out.push("rs");
            },
            Lang::Cpp => {
                out.push("c");
                out.push("cpp");
                out.push("h");
                out.push("hpp");
                out.push("hxx");
            },
        }
        out
    }

    /// Whether the language reads the file at `path`.
    pub fn accepts(self, path: &str) -> (r: bool)
        ensures
            r == self.accepts_path(path@),
    {
        match file_extension(path) {
            Some(ext) => {
                let known = self.extension_list();
                let mut i: usize = 0;
                while i < known.len()
                    invariant
                        i <= known.len(),
                        known.deep_view() == self.extensions(),
                        extension(path@) == Some(ext@),
                        forall|k: int| 0 <= k < i ==> self.extensions()[k] != ext@,
                    decreases known.len() - i,
                {
                    proof {
                        assert(known.deep_view()[i as int] == known[i as int]@);
                    }
                    if same_text(known[i], ext.as_str()) {
                        return true;
                    }
                    i += 1;
                }
                false
            },
            None => false,
        }
    }

    /// What is appended to a path fragment to form the candidates, in the
    /// order in which they are tried.
    pub fn suffix_list(self) -> (r: Vec<&'static str>)
        ensures
            r.deep_view() == self.suffixes(),
    {
        let mut out: Vec<&'static str> = Vec::new();
        match self {
            Lang::JavaScript => {
                out.push("");
                out.push(".js");
                out.push(".jsx");
                out.push(".ts");
                out.push(".tsx");
                out.push("/index.js");
                out.push("/index.jsx");
                out.push("/index.ts");
                out.push("/index.tsx");
            },
            Lang::Python => {
                out.push(".py");
                out.push("/__init__.py");
            },
            Lang::Rust => {
                out.push(".rs");
                out.push("/mod.rs");
            },
            Lang::Cpp => {
                out.push("");
                out.push(".h");
                out.push(".hpp");
                out.push(".hxx");
            },
        }
        out
    }

    /// The path fragment that an import literal stands for.
    pub fn rewrite(self, literal: &str) -> (r: String)
        ensures
            r@ == self.fragment(literal@),
    {
        let chars = chars_of(literal);
        match self {
            Lang::JavaScript => text_of(&chars),
            Lang::Python => text_of(&python_rewrite(&chars)),
            Lang::Rust => text_of(&rust_rewrite(&chars)),
            Lang::Cpp => text_of(&chars),
        }
    }
}

/// The path fragment that a Python module name stands for.
pub fn python_rewrite(module: &Vec<char>) -> (r: Vec<char>)
    ensures
        r@ == python_fragment(module@),
{
    let dots = count_leading(module, '.');
    if dots > 0 {
        let mut out: Vec<char> = Vec::new();
        let mut i: usize = 1;
        while i < dots
            invariant
                1 <= i <= dots,
                out@ == repeated(seq!['.', '.', '/'], (i - 1) as nat),
            decreases dots - i,
        {
            out.push('.');
            out.push('.');
            out.push('/');
            i += 1;
        }
        let rest = copy_range(module, dots, module.len());
        let tail = replace_char(&rest, '.', '/');
        append_chars(&mut out, &tail);
        out
    } else {
        replace_char(module, '.', '/')
    }
}

/// `chars` with every `::` replaced by one `/`, read from the left.
pub fn replace_colons(chars: &Vec<char>) -> (r: Vec<char>)
    ensures
        r@ == colons_to_slashes(chars@),
{
    let mut out: Vec<char> = Vec::new();
    let mut i: usize = 0;
    proof {
        assert(chars@.skip(0) =~= chars@);
    }
    while i < chars.len()
        invariant
            i <= chars.len(),
            out@ + colons_to_slashes(chars@.skip(i as int)) == colons_to_slashes(chars@),
        decreases chars.len() - i,
    {
        let ghost rest = chars@.skip(i as int);
        if chars[i] == ':' && i + 1 < chars.len() && chars[i + 1] == ':' {
            out.push('/');
            proof {
                assert(rest.skip(2) =~= chars@.skip(i + 2));
            }
            i += 2;
        } else {
            out.push(chars[i]);
            proof {
                assert(rest.skip(1) =~= chars@.skip(i + 1));
            }
            i += 1;
        }
    }
    out
}

/// The path fragment that a Rust module path stands for.
pub fn rust_rewrite(module: &Vec<char>) -> (r: Vec<char>)
    ensures
        r@ == rust_fragment(module@),
{
    let own = chars_of("self::");
    let up = chars_of("super::");
    proof {
        reveal_strlit("self::");
        reveal_strlit("super::");
        assert(own@ =~= seq!['s', 'e', 'l', 'f', ':', ':']);
        assert(up@ =~= seq!['s', 'u', 'p', 'e', 'r', ':', ':']);
    }
    if starts_with(module, &own) {
        let rest = copy_range(module, 6, module.len());
        replace_colons(&rest)
    } else if starts_with(module, &up) {
        let mut climbed: Vec<char> = Vec::new();
        climbed.push('.');
        climbed.push('.');
        climbed.push('/');
        let rest = copy_range(module, 7, module.len());
        append_chars(&mut climbed, &rest);
        proof {
            assert(climbed@ =~= seq!['.', '.', '/'] + module@.skip(7));
        }
        replace_colons(&climbed)
    } else {
        replace_colons(module)
    }
}

/// A Rust path that opens with `self::` stands for the same fragment as
/// the path behind it, unless that path opens with `self::` or `super::`
/// itself.
pub proof fn lemma_self_prefix_is_dropped(path: Seq<char>)
    ensures
        rust_fragment(seq!['s', 'e', 'l', 'f', ':', ':'] + path) == colons_to_slashes(path),
        !has_prefix(path, seq!['s', 'e', 'l', 'f', ':', ':']) && !has_prefix(
            path,
            seq!['s', 'u', 'p', 'e', 'r', ':', ':'],
        ) ==> Lang::Rust.fragment(seq!['s', 'e', 'l', 'f', ':', ':'] + path)
            == Lang::Rust.fragment(path),
{
    let own = seq!['s', 'e', 'l', 'f', ':', ':'];
    let full = own + path;
    assert(full.take(6) =~= own);
    assert(full.skip(6) =~= path);
}

} // verus!
