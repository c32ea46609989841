//! From the matches of an import query to the imports of a file.

use crate::lang::Lang;
use crate::path::same_text;
use crate::syntax::{find_matches, import_query, query_text, syntax_matches, Capture, PatternMatch};
use crate::text::{byte_slice, chars_of, count_leading, leading_count, slice_bytes, text_of,
    trim_char, unquoted};
use vstd::prelude::*;
use vstd::string::StringExecFns;

verus! {

/// What kind of reference an import is.
#[derive(Clone, Copy, Debug, PartialEq, Eq, Structural)]
pub enum ImportKind {
    /// A module name (Python `import` and `from`, Rust `use`).
    Module,
    /// A path written as a string (JavaScript `import` and `require`).
    StringPath,
    /// A quoted `#include`.
    Header,
    /// A Rust `mod` item.
    ModItem,
}

/// An import as it stands in a source file, before it is resolved.
#[derive(Debug)]
pub struct RawImport {
    pub source_file: String,
    pub language: Lang,
    pub literal: String,
    pub kind: ImportKind,
}

/// What a `RawImport` holds, as mathematical values.
pub ghost struct RawImportView {
    pub source_file: Seq<char>,
    pub language: Lang,
    pub literal: Seq<char>,
    pub kind: ImportKind,
}

impl View for RawImport {
    type V = RawImportView;

    open spec fn view(&self) -> RawImportView {
        RawImportView {
            source_file: self.source_file@,
            language: self.language,
            literal: self.literal@,
            kind: self.kind,
        }
    }
}

impl DeepView for RawImport {
    type V = RawImportView;

    open spec fn deep_view(&self) -> RawImportView {
        self@
    }
}

/// The texts of the captures called `name`, in order. A capture whose byte
/// range does not cut `text` between characters has no text and is left
/// out.
pub open spec fn named_texts(text: Seq<char>, captures: Seq<Capture>, name: Seq<char>) -> Seq<
    Seq<char>,
>
    decreases captures.len(),
{
    if captures.len() == 0 {
        Seq::empty()
    } else {
        let before = named_texts(text, captures.drop_last(), name);
        let last = captures.last();
        if last.name@ == name {
            match byte_slice(text, last.start as int, last.end as int) {
                Some(t) => before.push(t),
                None => before,
            }
        } else {
            before
        }
    }
}

/// `s` is one or more dots and nothing else.
pub open spec fn is_dots(s: Seq<char>) -> bool {
    s.len() > 0 && leading_count(s, '.') == s.len()
}

/// What a match of `from . import a, b` imports: the dots followed by each
/// imported name. The dots are those captured last; where they are not
/// dots only, the match imports nothing.
pub open spec fn relative_names(text: Seq<char>, captures: Seq<Capture>) -> Seq<Seq<char>> {
    let dots = named_texts(text, captures, "dots"@);
    if dots.len() > 0 && is_dots(dots.last()) {
        named_texts(text, captures, "name"@).map_values(|n: Seq<char>| dots.last() + n)
    } else {
        Seq::empty()
    }
}

/// The import literals that one match gives.
pub open spec fn match_literals(lang: Lang, text: Seq<char>, m: PatternMatch) -> Seq<Seq<char>> {
    match lang {
        Lang::JavaScript => named_texts(text, m.captures@, "path"@).map_values(
            |t: Seq<char>| unquoted(t),
        ),
        Lang::Python => if m.pattern <= 1 {
            named_texts(text, m.captures@, "module"@)
        } else if m.pattern == 2 {
            relative_names(text, m.captures@)
        } else {
            Seq::empty()
        },
        Lang::Rust => named_texts(text, m.captures@, "module"@),
        Lang::Cpp => named_texts(text, m.captures@, "header"@).map_values(
            |t: Seq<char>| unquoted(t),
        ),
    }
}

/// The kind of the imports that pattern number `pattern` of the query of
/// `lang` finds.
pub open spec fn import_kind(lang: Lang, pattern: usize) -> ImportKind {
    match lang {
        Lang::JavaScript => ImportKind::StringPath,
        Lang::Python => ImportKind::Module,
        Lang::Rust => if pattern == 0 {
            ImportKind::ModItem
        } else {
            ImportKind::Module
        },
        Lang::Cpp => ImportKind::Header,
    }
}

/// The imports that one match gives to the file `source`.
pub open spec fn match_imports(lang: Lang, source: Seq<char>, text: Seq<char>, m: PatternMatch)
    -> Seq<RawImportView> {
    match_literals(lang, text, m).map_values(
        |literal: Seq<char>|
            RawImportView {
                source_file: source,
                language: lang,
                literal,
                kind: import_kind(lang, m.pattern),
            },
    )
}

/// The imports that `matches` give to the file `source`, match by match.
pub open spec fn imports_of(
    lang: Lang,
    source: Seq<char>,
    text: Seq<char>,
    matches: Seq<PatternMatch>,
) -> Seq<RawImportView>
    decreases matches.len(),
{
    if matches.len() == 0 {
        Seq::empty()
    } else {
        imports_of(lang, source, text, matches.drop_last()) + match_imports(
            lang,
            source,
            text,
            matches.last(),
        )
    }
}

/// The imports of the file `source` with the contents `text`, read as
/// `lang`: those that the matches of the language's query give, and none
/// where the text cannot be parsed.
pub open spec fn extracted(lang: Lang, source: Seq<char>, text: Seq<char>) -> Seq<RawImportView> {
    match syntax_matches(lang, query_text(lang), text) {
        Some(matches) => imports_of(lang, source, text, matches@),
        None => Seq::empty(),
    }
}

/// The texts of the captures called `name`, in order.
pub fn texts_named(text: &str, captures: &Vec<Capture>, name: &str) -> (r: Vec<String>)
    ensures
        r.deep_view() == named_texts(text@, captures@, name@),
{
    let mut out: Vec<String> = Vec::new();
    let mut i: usize = 0;
    while i < captures.len()
        invariant
            i <= captures.len(),
            out.deep_view() == named_texts(text@, captures@.take(i as int), name@),
        decreases captures.len() - i,
    {
        proof {
            assert(captures@.take(i + 1).drop_last() =~= captures@.take(i as int));
        }
        let c = &captures[i];
        if same_text(c.name.as_str(), name) {
            match slice_bytes(text, c.start, c.end) {
                Some(part) => {
                    out.push(part.to_owned());
                },
                None => {},
            }
        }
        i += 1;
    }
    proof {
        assert(captures@.take(i as int) =~= captures@);
    }
    out
}

/// `literal` without the quotes that surround it.
pub fn strip_quotes(literal: &str) -> (r: String)
    ensures
        r@ == unquoted(literal@),
{
    let chars = chars_of(literal);
    let inner = trim_char(&chars, '"');
    text_of(&trim_char(&inner, '\''))
}

/// Whether `s` is one or more dots and nothing else.
pub fn only_dots(s: &str) -> (r: bool)
    ensures
        r == is_dots(s@),
{
    let chars = chars_of(s);
    chars.len() > 0 && count_leading(&chars, '.') == chars.len()
}

/// The import literals that the match `m` gives.
pub fn literals_of_match(lang: Lang, text: &str, m: &PatternMatch) -> (r: Vec<String>)
    ensures
        r.deep_view() == match_literals(lang, text@, *m),
{
    match lang {
        Lang::JavaScript => unquote_all(texts_named(text, &m.captures, "path")),
        Lang::Python => {
            if m.pattern <= 1 {
                texts_named(text, &m.captures, "module")
            } else if m.pattern == 2 {
                let dots = texts_named(text, &m.captures, "dots");
                let names = texts_named(text, &m.captures, "name");
                let mut out: Vec<String> = Vec::new();
                if dots.len() > 0 && only_dots(dots[dots.len() - 1].as_str()) {
                    let lead = &dots[dots.len() - 1];
                    let ghost wanted = relative_names(text@, m.captures@);
                    let mut i: usize = 0;
                    while i < names.len()
                        invariant
                            i <= names.len(),
                            wanted == names.deep_view().map_values(|n: Seq<char>| lead@ + n),
                            out.deep_view() == wanted.take(i as int),
                        decreases names.len() - i,
                    {
                        let ghost before = out.deep_view();
                        let combined = lead.clone().concat(names[i].as_str());
                        out.push(combined);
                        proof {
                            assert(out.deep_view() =~= before.push(lead@ + names[i as int]@));
                        }
                        i += 1;
                    }
                }
                out
            } else {
                let out: Vec<String> = Vec::new();
                out
            }
        },
        Lang::Rust => texts_named(text, &m.captures, "module"),
        Lang::Cpp => unquote_all(texts_named(text, &m.captures, "header")),
    }
}

/// Each of `items` without the quotes that surround it.
pub fn unquote_all(items: Vec<String>) -> (r: Vec<String>)
    ensures
        r.deep_view() == items.deep_view().map_values(|t: Seq<char>| unquoted(t)),
{
    let ghost wanted = items.deep_view().map_values(|t: Seq<char>| unquoted(t));
    let mut out: Vec<String> = Vec::new();
    let mut i: usize = 0;
    while i < items.len()
        invariant
            i <= items.len(),
            wanted == items.deep_view().map_values(|t: Seq<char>| unquoted(t)),
            out.deep_view() == wanted.take(i as int),
        decreases items.len() - i,
    {
        let ghost before = out.deep_view();
        out.push(strip_quotes(items[i].as_str()));
        proof {
            assert(out.deep_view() =~= before.push(unquoted(items[i as int]@)));
        }
        i += 1;
    }
    out
}

/// The kind of the imports that pattern number `pattern` of the query of
/// `lang` finds.
pub fn kind_of(lang: Lang, pattern: usize) -> (r: ImportKind)
    ensures
        r == import_kind(lang, pattern),
{
    match lang {
        Lang::JavaScript => ImportKind::StringPath,
        Lang::Python => ImportKind::Module,
        Lang::Rust => if pattern == 0 {
            ImportKind::ModItem
        } else {
            ImportKind::Module
        },
        Lang::Cpp => ImportKind::Header,
    }
}

/// The imports that `matches` give to the file `source_file` with the
/// contents `text`.
pub fn imports_from_matches(
    lang: Lang,
    source_file: &str,
    text: &str,
    matches: &Vec<PatternMatch>,
) -> (r: Vec<RawImport>)
    ensures
        r.deep_view() == imports_of(lang, source_file@, text@, matches@),
{
    let mut out: Vec<RawImport> = Vec::new();
    let mut i: usize = 0;
    while i < matches.len()
        invariant
            i <= matches.len(),
            out.deep_view() == imports_of(lang, source_file@, text@, matches@.take(i as int)),
        decreases matches.len() - i,
    {
        let m = &matches[i];
        let literals = literals_of_match(lang, text, m);
        let kind = kind_of(lang, m.pattern);
        let ghost start = out.deep_view();
        let ghost added = match_imports(lang, source_file@, text@, *m);
        let mut j: usize = 0;
        while j < literals.len()
            invariant
                j <= literals.len(),
                literals.deep_view() == match_literals(lang, text@, *m),
                added == match_imports(lang, source_file@, text@, *m),
                kind == import_kind(lang, m.pattern),
                out.deep_view() == start + added.take(j as int),
            decreases literals.len() - j,
        {
            let ghost before = out.deep_view();
            let item = RawImport {
                source_file: source_file.to_owned(),
                language: lang,
                literal: literals[j].clone(),
                kind,
            };
            out.push(item);
            proof {
                assert(out.deep_view() =~= before.push(added[j as int]));
            }
            j += 1;
        }
        proof {
            assert(matches@.take(i + 1).drop_last() =~= matches@.take(i as int));
        }
        i += 1;
    }
    proof {
        assert(matches@.take(i as int) =~= matches@);
    }
    out
}

/// The imports of the file `source_file` with the contents `text`, read as
/// `lang`. A text that cannot be parsed has none.
pub fn extract(lang: Lang, source_file: &str, text: &str) -> (r: Vec<RawImport>)
    ensures
        r.deep_view() == extracted(lang, source_file@, text@),
{
    match find_matches(lang, import_query(lang), text) {
        Some(matches) => imports_from_matches(lang, source_file, text, &matches),
        None => {
            let out: Vec<RawImport> = Vec::new();
            out
        },
    }
}

} // verus!
